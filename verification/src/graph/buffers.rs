//! The buffers that processing a prepared graph reads and writes: one for
//! each output of the nodes that run before the output node, a shared buffer
//! of zeros, a buffer for each input fed by keyframes, and where every input
//! of a processed node reads from.

use crate::data_types::PlaybackContext;
use crate::graph::error::GraphError;
use crate::graph::node_id::NodeID;
use crate::graph::{on_cycle, reaches_cycle, Graph, InputSource};
use crate::keyed::{entries_view, has_key, keys_distinct, lemma_entries_view_all, lemma_entries_view_index};
use crate::node::Node;
use vstd::prelude::*;

verus! {

/// Where a node reads one of its inputs from once the graph is prepared.
#[derive(Debug, Clone, Copy, PartialEq, Eq, Structural)]
pub enum InputBinding {
    /// The buffer of the output at the given index of the given node.
    Output(NodeID, usize),
    /// A buffer of its own with this many bytes, into which keyframe values are written.
    Keyframe(usize),
    /// The shared buffer of zeros.
    Zero,
}

/// The buffers that processing a prepared graph needs.
pub struct BufferPlan {
    /// The size in bytes of the buffer of each output that gets one, keyed by
    /// `(node, output index)`, each key once.
    pub output_buffers: Vec<((NodeID, usize), usize)>,
    /// The size in bytes of the shared buffer of zeros.
    pub zero_buffer_size: usize,
    /// For each sorted node and then the output node, where each of its inputs reads from.
    pub node_inputs: Vec<(NodeID, Vec<InputBinding>)>,
}

impl<N: Node> Graph<N> {
    /// The node `n` exists and runs before the output node, so its outputs get
    /// buffers: it is the input node, or it is not the output node.
    pub open spec fn gets_output_buffers(&self, n: NodeID) -> bool {
        self.node_map().contains_key(n) && (n == self.spec_input_id() || n != self.spec_output_id())
    }

    /// The output `key` gets a buffer when the graph is prepared.
    pub open spec fn has_output_buffer(&self, key: (NodeID, usize)) -> bool {
        self.gets_output_buffers(key.0) && key.1 < self.node_map()[key.0].spec_output_len()
    }

    /// `key` names an input of an existing node.
    pub open spec fn is_input(&self, key: (NodeID, usize)) -> bool {
        self.node_map().contains_key(key.0) && key.1 < self.node_map()[key.0].spec_input_len()
    }

    /// The output `key` gets a buffer but has no type.
    pub open spec fn output_type_missing(&self, key: (NodeID, usize)) -> bool {
        self.has_output_buffer(key) && self.node_map()[key.0].spec_output_type(key.1 as int) is None
    }

    /// The input `key` exists but has no type.
    pub open spec fn input_type_missing(&self, key: (NodeID, usize)) -> bool {
        self.is_input(key) && self.node_map()[key.0].spec_input_type(key.1 as int) is None
    }

    /// Some edge leaves the output `from`, which gets no buffer.
    pub open spec fn edge_without_buffer(&self, from: (NodeID, usize)) -> bool {
        &&& !self.has_output_buffer(from)
        &&& exists|key: (NodeID, usize)|
            #[trigger] self.source_map().contains_key(key) && self.source_map()[key]
                == InputSource::Edge(from.0, from.1)
    }

    /// The bytes of the buffer of the output `key`.
    pub open spec fn output_buffer_size(&self, key: (NodeID, usize), buffer_size: usize) -> int {
        self.node_map()[key.0].spec_output_type(key.1 as int)->Some_0.sample_size * buffer_size
    }

    /// The bytes of a buffer for the input `key`.
    pub open spec fn input_buffer_size(&self, key: (NodeID, usize), buffer_size: usize) -> int {
        self.node_map()[key.0].spec_input_type(key.1 as int)->Some_0.sample_size * buffer_size
    }

    /// Every buffer size of a typed output that gets a buffer, and of a typed
    /// input, fits in `usize`.
    pub open spec fn buffer_sizes_fit(&self, buffer_size: usize) -> bool {
        &&& forall|key: (NodeID, usize)|
            #[trigger] self.has_output_buffer(key) && self.node_map()[key.0].spec_output_type(
                key.1 as int,
            ) is Some ==> self.output_buffer_size(key, buffer_size) <= usize::MAX
        &&& forall|key: (NodeID, usize)|
            #[trigger] self.is_input(key) && self.node_map()[key.0].spec_input_type(key.1 as int) is Some
                ==> self.input_buffer_size(key, buffer_size) <= usize::MAX
    }

    /// Every edge that leaves an output with a buffer enters an input of an existing node.
    pub open spec fn buffered_edges_enter_inputs(&self) -> bool {
        forall|key: (NodeID, usize)|
            #[trigger] self.source_map().contains_key(key) && (self.source_map()[key] matches InputSource::Edge(
                f,
                o,
            ) && self.has_output_buffer((f, o))) ==> self.is_input(key)
    }

    /// The number of inputs of the node `n`, none when it does not exist.
    pub open spec fn input_count(&self, n: NodeID) -> nat {
        if self.node_map().contains_key(n) {
            self.node_map()[n].spec_input_len()
        } else {
            0
        }
    }

    /// Where the input `key` reads from: the buffer of the output that an edge
    /// connects to it when that output has one, a keyframe buffer of the input's
    /// size, or zeros.
    pub open spec fn binding(&self, key: (NodeID, usize), buffer_size: usize) -> InputBinding {
        if self.source_map().contains_key(key) {
            match self.source_map()[key] {
                InputSource::Edge(f, o) => if self.has_output_buffer((f, o)) {
                    InputBinding::Output(f, o)
                } else {
                    InputBinding::Zero
                },
                InputSource::Keyframe => InputBinding::Keyframe(
                    self.input_buffer_size(key, buffer_size) as usize,
                ),
                InputSource::Zero => InputBinding::Zero,
            }
        } else {
            InputBinding::Zero
        }
    }

    /// The shared buffer of zeros is as large as the largest input buffer, and at least 4 bytes.
    pub open spec fn is_zero_buffer_size(&self, size: usize, buffer_size: usize) -> bool {
        &&& size >= 4
        &&& forall|key: (NodeID, usize)| #[trigger]
            self.is_input(key) ==> size >= self.input_buffer_size(key, buffer_size)
        &&& size == 4 || exists|key: (NodeID, usize)| #[trigger]
            self.is_input(key) && size == self.input_buffer_size(key, buffer_size)
    }

    /// Preparing succeeds: the graph holds no cycle reached from a node, every
    /// output that gets a buffer and every input has a type, and every edge
    /// leaves an output that gets a buffer.
    pub open spec fn prepares(&self) -> bool {
        &&& !reaches_cycle(self.source_map(), self.node_map().dom())
        &&& forall|key: (NodeID, usize)| !#[trigger] self.output_type_missing(key)
        &&& forall|key: (NodeID, usize)| !#[trigger] self.input_type_missing(key)
        &&& forall|from: (NodeID, usize)| !#[trigger] self.edge_without_buffer(from)
    }

    /// `plan` holds the buffers of the graph as sorted: one for each output
    /// that gets one, the shared zeros, and the binding of every input of each
    /// sorted node and then of the output node.
    pub open spec fn is_buffer_plan(&self, plan: BufferPlan, buffer_size: usize) -> bool {
        let order = self.sorted().push(self.spec_output_id());
        &&& keys_distinct(plan.output_buffers@)
        &&& forall|key: (NodeID, usize)| #[trigger]
            entries_view(plan.output_buffers@).contains_key(key) <==> self.has_output_buffer(key)
        &&& forall|key: (NodeID, usize)| #[trigger]
            entries_view(plan.output_buffers@).contains_key(key) ==> entries_view(
                plan.output_buffers@,
            )[key] == self.output_buffer_size(key, buffer_size)
        &&& self.is_zero_buffer_size(plan.zero_buffer_size, buffer_size)
        &&& plan.node_inputs@.len() == order.len()
        &&& forall|j: int|
            0 <= j < order.len() ==> {
                &&& #[trigger] plan.node_inputs@[j].0 == order[j]
                &&& plan.node_inputs@[j].1@.len() == self.input_count(order[j])
                &&& forall|i: int|
                    0 <= i < plan.node_inputs@[j].1@.len() ==> #[trigger] plan.node_inputs@[j].1@[i]
                        == self.binding((order[j], i as usize), buffer_size)
            }
    }

    /// The size of the shared buffer of zeros: the largest input buffer of
    /// any node, and at least 4 bytes; or the first input without a type.
    fn zero_buffer_size(&self, buffer_size: usize) -> (result: Result<usize, GraphError>)
        requires
            self.wf(),
            self.buffer_sizes_fit(buffer_size),
        ensures
            match result {
                Ok(size) => {
                    &&& forall|key: (NodeID, usize)| !#[trigger] self.input_type_missing(key)
                    &&& self.is_zero_buffer_size(size, buffer_size)
                },
                Err(e) => exists|key: (NodeID, usize)|
                    e == GraphError::InputTypeUnavailable(key.0, key.1) && #[trigger] self.input_type_missing(key),
            },
    {
        proof {
            lemma_entries_view_all(self.nodes@);
        }
        let mut max_size: usize = 4;
        let ghost mut witness: (NodeID, usize) = (NodeID(0), 0);
        let mut a: usize = 0;
        while a < self.nodes.len()
            invariant
                self.wf(),
                self.buffer_sizes_fit(buffer_size),
                a <= self.nodes.len(),
                forall|j: int|
                    0 <= j < self.nodes.len() ==> self.node_map().contains_key(#[trigger] self.nodes@[j].0)
                        && self.node_map()[self.nodes@[j].0] == self.nodes@[j].1,
                forall|j: int, m: usize|
                    0 <= j < a && m < self.nodes@[j].1.spec_input_len() ==> !self.input_type_missing(
                        (self.nodes@[j].0, m),
                    ) && max_size >= #[trigger] self.input_buffer_size((self.nodes@[j].0, m), buffer_size),
                max_size >= 4,
                max_size == 4 || (self.is_input(witness) && max_size == self.input_buffer_size(
                    witness,
                    buffer_size,
                )),
            decreases self.nodes.len() - a,
        {
            let id = self.nodes[a].0;
            let len = self.nodes[a].1.get_input_len();
            let mut i: usize = 0;
            while i < len
                invariant
                    self.wf(),
                    self.buffer_sizes_fit(buffer_size),
                    a < self.nodes.len(),
                    id == self.nodes@[a as int].0,
                    self.node_map().contains_key(id),
                    self.node_map()[id] == self.nodes@[a as int].1,
                    len == self.nodes@[a as int].1.spec_input_len(),
                    i <= len,
                    forall|j: int, m: usize|
                        0 <= j < a && m < self.nodes@[j].1.spec_input_len() ==> !self.input_type_missing(
                            (self.nodes@[j].0, m),
                        ) && max_size >= #[trigger] self.input_buffer_size((self.nodes@[j].0, m), buffer_size),
                    forall|m: usize|
                        m < i ==> !self.input_type_missing((id, m)) && max_size
                            >= #[trigger] self.input_buffer_size((id, m), buffer_size),
                    max_size >= 4,
                    max_size == 4 || (self.is_input(witness) && max_size == self.input_buffer_size(
                        witness,
                        buffer_size,
                    )),
                decreases len - i,
            {
                let input_type = match self.nodes[a].1.get_input_type(i) {
                    Some(t) => *t,
                    None => {
                        assert(self.input_type_missing((id, i)));
                        return Err(GraphError::InputTypeUnavailable(id, i));
                    },
                };
                assert(self.is_input((id, i)));
                let size = input_type.actual_size(buffer_size);
                if size > max_size {
                    max_size = size;
                    proof {
                        witness = (id, i);
                    }
                }
                i = i + 1;
            }
            a = a + 1;
        }
        proof {
            assert forall|key: (NodeID, usize)| #[trigger]
                self.is_input(key) implies !self.input_type_missing(key) && max_size
                >= self.input_buffer_size(key, buffer_size) by {
                let j = choose|j: int| 0 <= j < self.nodes.len() && #[trigger] self.nodes@[j].0 == key.0;
                assert(self.input_buffer_size((self.nodes@[j].0, key.1), buffer_size) == self.input_buffer_size(key, buffer_size));
            }
            assert forall|key: (NodeID, usize)| !#[trigger] self.input_type_missing(key) by {
                if self.is_input(key) {
                    assert(self.is_input(key));
                }
            }
        }
        Ok(max_size)
    }

    /// The first edge, in the order of the input sources, that leaves an output without a buffer.
    fn find_edge_without_buffer(&self) -> (found: Option<(NodeID, usize)>)
        requires
            self.wf(),
        ensures
            match found {
                Some(from) => self.edge_without_buffer(from),
                None => forall|from: (NodeID, usize)| !#[trigger] self.edge_without_buffer(from),
            },
    {
        proof {
            lemma_entries_view_all(self.input_sources@);
        }
        let mut j: usize = 0;
        while j < self.input_sources.len()
            invariant
                self.wf(),
                j <= self.input_sources.len(),
                forall|m: int|
                    0 <= m < self.input_sources.len() ==> self.source_map().contains_key(
                        #[trigger] self.input_sources@[m].0,
                    ) && self.source_map()[self.input_sources@[m].0] == self.input_sources@[m].1,
                forall|m: int|
                    0 <= m < j ==> (#[trigger] self.input_sources@[m].1 matches InputSource::Edge(f, o)
                        ==> self.has_output_buffer((f, o))),
            decreases self.input_sources.len() - j,
        {
            if let InputSource::Edge(f, o) = self.input_sources[j].1 {
                if !self.output_gets_buffer((f, o)) {
                    assert(self.source_map().contains_key(self.input_sources@[j as int].0));
                    return Some((f, o));
                }
            }
            j = j + 1;
        }
        proof {
            assert forall|from: (NodeID, usize)| !#[trigger] self.edge_without_buffer(from) by {
                if self.edge_without_buffer(from) {
                    let key = choose|key: (NodeID, usize)|
                        #[trigger] self.source_map().contains_key(key) && self.source_map()[key]
                            == InputSource::Edge(from.0, from.1);
                    let m = choose|m: int|
                        0 <= m < self.input_sources.len() && #[trigger] self.input_sources@[m].0 == key;
                    assert(self.input_sources@[m].1 == InputSource::Edge(from.0, from.1));
                }
            }
        }
        None
    }

    /// Where each input of the node `n` reads from; or the first input fed by
    /// keyframes that has no type.
    fn bind_inputs(&self, n: NodeID, buffer_size: usize) -> (result: Result<Vec<InputBinding>, GraphError>)
        requires
            self.wf(),
            self.buffer_sizes_fit(buffer_size),
        ensures
            match result {
                Ok(bindings) => {
                    &&& bindings@.len() == self.input_count(n)
                    &&& forall|i: int|
                        0 <= i < bindings@.len() ==> #[trigger] bindings@[i] == self.binding(
                            (n, i as usize),
                            buffer_size,
                        )
                },
                Err(e) => exists|key: (NodeID, usize)|
                    e == GraphError::InputTypeUnavailable(key.0, key.1) && #[trigger] self.input_type_missing(key),
            },
    {
        proof {
            lemma_entries_view_all(self.nodes@);
            lemma_entries_view_all(self.input_sources@);
        }
        let mut bindings: Vec<InputBinding> = Vec::new();
        let a = match self.find_node(&n) {
            Some(a) => a,
            None => {
                return Ok(bindings);
            },
        };
        let len = self.nodes[a].1.get_input_len();
        let mut i: usize = 0;
        while i < len
            invariant
                self.wf(),
                self.buffer_sizes_fit(buffer_size),
                a < self.nodes.len(),
                self.nodes@[a as int].0 == n,
                self.node_map().contains_key(n),
                self.node_map()[n] == self.nodes@[a as int].1,
                len == self.input_count(n),
                i <= len,
                bindings@.len() == i,
                forall|m: int|
                    0 <= m < self.input_sources.len() ==> self.source_map().contains_key(
                        #[trigger] self.input_sources@[m].0,
                    ) && self.source_map()[self.input_sources@[m].0] == self.input_sources@[m].1,
                forall|m: int|
                    0 <= m < i ==> #[trigger] bindings@[m] == self.binding((n, m as usize), buffer_size),
            decreases len - i,
        {
            let binding = match self.find_source(&(n, i)) {
                Some(s) => match self.input_sources[s].1 {
                    InputSource::Edge(f, o) => if self.output_gets_buffer((f, o)) {
                        InputBinding::Output(f, o)
                    } else {
                        InputBinding::Zero
                    },
                    InputSource::Keyframe => {
                        let input_type = match self.nodes[a].1.get_input_type(i) {
                            Some(t) => *t,
                            None => {
                                assert(self.input_type_missing((n, i)));
                                return Err(GraphError::InputTypeUnavailable(n, i));
                            },
                        };
                        assert(self.is_input((n, i)));
                        InputBinding::Keyframe(input_type.actual_size(buffer_size))
                    },
                    InputSource::Zero => InputBinding::Zero,
                },
                None => {
                    proof {
                        if self.source_map().contains_key((n, i)) {
                            let m = choose|m: int|
                                0 <= m < self.input_sources.len() && #[trigger] self.input_sources@[m].0 == (n, i);
                        }
                    }
                    InputBinding::Zero
                },
            };
            bindings.push(binding);
            i = i + 1;
        }
        Ok(bindings)
    }

    /// Sorts the graph and works out the buffers that processing it needs: a
    /// buffer for each output of the input node and of each sorted node, a
    /// shared buffer of zeros as large as the largest input buffer (at least 4
    /// bytes), and where every input of each sorted node and of the output node
    /// reads from. The nodes are to be prepared before this call, as their
    /// types decide the sizes.
    pub fn prepare(&mut self, playback_ctx: &PlaybackContext) -> (result: Result<BufferPlan, GraphError>)
        requires
            old(self).wf(),
            !reaches_cycle(old(self).source_map(), old(self).node_map().dom()) ==> old(
                self,
            ).buffer_sizes_fit(playback_ctx.buffer_size),
            !reaches_cycle(old(self).source_map(), old(self).node_map().dom()) ==> old(
                self,
            ).buffered_edges_enter_inputs(),
        ensures
            final(self).wf(),
            final(self).node_map() == old(self).node_map(),
            final(self).source_map() == old(self).source_map(),
            final(self).spec_input_id() == old(self).spec_input_id(),
            final(self).spec_output_id() == old(self).spec_output_id(),
            final(self).next_id() == old(self).next_id(),
            result is Ok <==> old(self).prepares(),
            match result {
                Ok(plan) => {
                    &&& old(self).is_processing_order(final(self).sorted())
                    &&& final(self).is_buffer_plan(plan, playback_ctx.buffer_size)
                },
                Err(GraphError::NodeCycle(n)) => {
                    &&& reaches_cycle(old(self).source_map(), old(self).node_map().dom())
                    &&& on_cycle(old(self).source_map(), n)
                    &&& final(self).sorted() == old(self).sorted()
                },
                Err(GraphError::OutputTypeUnavailable(n, k)) => {
                    &&& !reaches_cycle(old(self).source_map(), old(self).node_map().dom())
                    &&& old(self).is_processing_order(final(self).sorted())
                    &&& old(self).output_type_missing((n, k))
                },
                Err(GraphError::InputTypeUnavailable(n, i)) => {
                    &&& !reaches_cycle(old(self).source_map(), old(self).node_map().dom())
                    &&& old(self).is_processing_order(final(self).sorted())
                    &&& forall|key: (NodeID, usize)| !#[trigger] old(self).output_type_missing(key)
                    &&& old(self).input_type_missing((n, i))
                },
                Err(GraphError::OutputBufferNotFound(f, o)) => {
                    &&& !reaches_cycle(old(self).source_map(), old(self).node_map().dom())
                    &&& old(self).is_processing_order(final(self).sorted())
                    &&& forall|key: (NodeID, usize)| !#[trigger] old(self).output_type_missing(key)
                    &&& forall|key: (NodeID, usize)| !#[trigger] old(self).input_type_missing(key)
                    &&& old(self).edge_without_buffer((f, o))
                },
                Err(GraphError::NodeTypeMismatch(_)) => false,
            },
    {
        // First sort the graph
        match self.sort_graph() {
            Ok(()) => {},
            Err(e) => {
                return Err(e);
            },
        }
        let buffer_size = playback_ctx.buffer_size;
        proof {
            lemma_entries_view_all(self.nodes@);
            self.lemma_same_buffers(old(self));
        }
        // Allocate the output buffers of the input node, then of every sorted node
        let mut output_buffers: Vec<((NodeID, usize), usize)> = Vec::new();
        let ghost mut done: Set<NodeID> = Set::empty();
        match self.find_node(&self.input_id) {
            Some(i) => {
                proof {
                    lemma_entries_view_index(self.nodes@, i as int);
                }
                let ghost before = output_buffers@;
                match self.push_output_buffers(i, buffer_size, &mut output_buffers) {
                    Ok(()) => {},
                    Err(e) => {
                        return Err(e);
                    },
                }
                proof {
                    let id = self.input_id;
                    done = done.insert(id);
                    assert forall|key: (NodeID, usize)|
                        self.has_output_buffer(key) && done.contains(key.0) implies has_key(
                        output_buffers@,
                        key,
                    ) by {
                        assert(output_buffers@[before.len() + key.1 as int].0 == key);
                    }
                    assert forall|x: int, y: int|
                        0 <= x < output_buffers@.len() && 0 <= y < output_buffers@.len() && x
                            != y implies #[trigger] output_buffers@[x].0 != #[trigger] output_buffers@[y].0 by {
                        assert(output_buffers@[x] == output_buffers@[before.len() + x]);
                        assert(output_buffers@[y] == output_buffers@[before.len() + y]);
                    }
                    assert forall|j: int| 0 <= j < output_buffers@.len() implies {
                        &&& done.contains(#[trigger] output_buffers@[j].0.0)
                        &&& self.has_output_buffer(output_buffers@[j].0)
                        &&& output_buffers@[j].1 == self.output_buffer_size(output_buffers@[j].0, buffer_size)
                        &&& !self.output_type_missing(output_buffers@[j].0)
                    } by {
                        let k = j as usize;
                        assert(output_buffers@[before.len() + k as int] == (
                            (id, k),
                            self.output_buffer_size((id, k), buffer_size) as usize,
                        ));
                        assert(self.has_output_buffer((id, k)));
                        assert(!self.output_type_missing((id, k)));
                    }
                }
            },
            None => {},
        }
        let mut s: usize = 0;
        while s < self.sorted_nodes.len()
            invariant
                self.wf(),
                self.buffer_sizes_fit(buffer_size),
                self.node_map() == old(self).node_map(),
                self.source_map() == old(self).source_map(),
                self.spec_input_id() == old(self).spec_input_id(),
                self.spec_output_id() == old(self).spec_output_id(),
                self.next_id() == old(self).next_id(),
                old(self).is_processing_order(self.sorted()),
                !reaches_cycle(old(self).source_map(), old(self).node_map().dom()),
                s <= self.sorted_nodes.len(),
                keys_distinct(output_buffers@),
                forall|j: int|
                    0 <= j < output_buffers@.len() ==> {
                        &&& done.contains(#[trigger] output_buffers@[j].0.0)
                        &&& self.has_output_buffer(output_buffers@[j].0)
                        &&& output_buffers@[j].1 == self.output_buffer_size(output_buffers@[j].0, buffer_size)
                        &&& !self.output_type_missing(output_buffers@[j].0)
                    },
                forall|key: (NodeID, usize)|
                    self.has_output_buffer(key) && #[trigger] done.contains(key.0) ==> has_key(output_buffers@, key),
                forall|n: NodeID|
                    #[trigger] done.contains(n) ==> n == self.input_id || exists|m: int|
                        0 <= m < s && self.sorted_nodes@[m] == n,
                forall|m: int|
                    0 <= m < s && self.node_map().contains_key(#[trigger] self.sorted_nodes@[m]) ==> done.contains(
                        self.sorted_nodes@[m],
                    ),
                self.node_map().contains_key(self.input_id) ==> done.contains(self.input_id),
                forall|key: (NodeID, usize)|
                    self.has_output_buffer(key) && #[trigger] done.contains(key.0) ==> !self.output_type_missing(key),
            decreases self.sorted_nodes.len() - s,
        {
            let id = self.sorted_nodes[s];
            match self.find_node(&id) {
                Some(i) => {
                    proof {
                        lemma_entries_view_index(self.nodes@, i as int);
                        assert(self.sorted().contains(id));
                    }
                    let ghost before = output_buffers@;
                    match self.push_output_buffers(i, buffer_size, &mut output_buffers) {
                        Ok(()) => {},
                        Err(e) => {
                            proof {
                                self.lemma_same_buffers(old(self));
                            }
                            return Err(e);
                        },
                    }
                    proof {
                        assert(!done.contains(id)) by {
                            if done.contains(id) {
                                if id != self.input_id {
                                    let m = choose|m: int| 0 <= m < s && self.sorted_nodes@[m] == id;
                                    assert(self.sorted_nodes@[m] == self.sorted_nodes@[s as int]);
                                }
                            }
                        }
                        let len = self.node_map()[id].spec_output_len();
                        assert(keys_distinct(output_buffers@)) by {
                            assert forall|x: int, y: int|
                                0 <= x < output_buffers@.len() && 0 <= y < output_buffers@.len() && x
                                    != y implies #[trigger] output_buffers@[x].0 != #[trigger] output_buffers@[y].0 by {
                                if x < before.len() && y < before.len() {
                                    assert(output_buffers@[x] == before[x] && output_buffers@[y] == before[y]);
                                } else if x < before.len() {
                                    assert(output_buffers@[x] == before[x]);
                                    assert(done.contains(before[x].0.0));
                                    assert(output_buffers@[y] == output_buffers@[before.len() + (y - before.len())]);
                                } else if y < before.len() {
                                    assert(output_buffers@[y] == before[y]);
                                    assert(done.contains(before[y].0.0));
                                    assert(output_buffers@[x] == output_buffers@[before.len() + (x - before.len())]);
                                } else {
                                    assert(output_buffers@[x] == output_buffers@[before.len() + (x - before.len())]);
                                    assert(output_buffers@[y] == output_buffers@[before.len() + (y - before.len())]);
                                }
                            }
                        }
                        let old_done = done;
                        done = done.insert(id);
                        assert forall|j: int| 0 <= j < output_buffers@.len() implies {
                            &&& done.contains(#[trigger] output_buffers@[j].0.0)
                            &&& self.has_output_buffer(output_buffers@[j].0)
                            &&& output_buffers@[j].1 == self.output_buffer_size(output_buffers@[j].0, buffer_size)
                            &&& !self.output_type_missing(output_buffers@[j].0)
                        } by {
                            if j < before.len() {
                                assert(output_buffers@[j] == before[j]);
                                assert(old_done.contains(before[j].0.0));
                            } else {
                                let k = (j - before.len()) as usize;
                                assert(output_buffers@[before.len() + k as int] == (
                                    (id, k),
                                    self.output_buffer_size((id, k), buffer_size) as usize,
                                ));
                                assert(self.has_output_buffer((id, k)));
                                assert(!self.output_type_missing((id, k)));
                            }
                        }
                        assert forall|key: (NodeID, usize)|
                            self.has_output_buffer(key) && #[trigger] done.contains(key.0) implies has_key(
                            output_buffers@,
                            key,
                        ) by {
                            if key.0 == id {
                                assert(output_buffers@[before.len() + key.1 as int].0 == key);
                            } else {
                                assert(old_done.contains(key.0));
                                let j = choose|j: int| 0 <= j < before.len() && #[trigger] before[j].0 == key;
                                assert(output_buffers@[j] == before[j]);
                            }
                        }
                        assert forall|n: NodeID| #[trigger] done.contains(n) implies n == self.input_id || exists|m: int|
                            0 <= m < s + 1 && self.sorted_nodes@[m] == n by {
                            if n == id {
                                assert(self.sorted_nodes@[s as int] == n);
                            } else {
                                assert(old_done.contains(n));
                            }
                        }
                        assert forall|key: (NodeID, usize)|
                            self.has_output_buffer(key) && #[trigger] done.contains(key.0) implies !self.output_type_missing(key) by {
                            if key.0 != id {
                                assert(old_done.contains(key.0));
                            }
                        }
                    }
                },
                None => {
                    proof {
                        if self.node_map().contains_key(id) {
                            let j = choose|j: int| 0 <= j < self.nodes.len() && #[trigger] self.nodes@[j].0 == id;
                        }
                    }
                },
            }
            s = s + 1;
        }
        proof {
            assert forall|key: (NodeID, usize)| #[trigger]
                self.has_output_buffer(key) implies done.contains(key.0) by {
                if key.0 != self.input_id {
                    assert(self.sorted().contains(key.0));
                    let m = choose|m: int| 0 <= m < self.sorted().len() && self.sorted()[m] == key.0;
                    assert(self.node_map().contains_key(self.sorted_nodes@[m]));
                }
            }
            assert forall|key: (NodeID, usize)| !#[trigger] self.output_type_missing(key) by {
                if self.has_output_buffer(key) {
                    assert(done.contains(key.0));
                }
            }
        }
        // Calculate the size of the zero buffer
        let zero_buffer_size = match self.zero_buffer_size(buffer_size) {
            Ok(size) => size,
            Err(e) => {
                return Err(e);
            },
        };
        // Every edge must leave an output that has a buffer
        match self.find_edge_without_buffer() {
            Some(from) => {
                return Err(GraphError::OutputBufferNotFound(from.0, from.1));
            },
            None => {},
        }
        // Bind the inputs of every sorted node and of the output node
        let mut node_inputs: Vec<(NodeID, Vec<InputBinding>)> = Vec::new();
        let mut s: usize = 0;
        while s < self.sorted_nodes.len()
            invariant
                self.wf(),
                self.buffer_sizes_fit(buffer_size),
                self.node_map() == old(self).node_map(),
                self.source_map() == old(self).source_map(),
                self.spec_input_id() == old(self).spec_input_id(),
                self.spec_output_id() == old(self).spec_output_id(),
                self.next_id() == old(self).next_id(),
                old(self).is_processing_order(self.sorted()),
                !reaches_cycle(old(self).source_map(), old(self).node_map().dom()),
                forall|key: (NodeID, usize)| !#[trigger] self.output_type_missing(key),
                forall|key: (NodeID, usize)| !#[trigger] self.input_type_missing(key),
                forall|from: (NodeID, usize)| !#[trigger] self.edge_without_buffer(from),
                s <= self.sorted_nodes.len(),
                node_inputs@.len() == s,
                forall|j: int|
                    0 <= j < s ==> {
                        &&& #[trigger] node_inputs@[j].0 == self.sorted_nodes@[j]
                        &&& node_inputs@[j].1@.len() == self.input_count(self.sorted_nodes@[j])
                        &&& forall|i: int|
                            0 <= i < node_inputs@[j].1@.len() ==> #[trigger] node_inputs@[j].1@[i]
                                == self.binding((self.sorted_nodes@[j], i as usize), buffer_size)
                    },
            decreases self.sorted_nodes.len() - s,
        {
            let id = self.sorted_nodes[s];
            let bindings = match self.bind_inputs(id, buffer_size) {
                Ok(b) => b,
                Err(e) => {
                    proof {
                        let key = choose|key: (NodeID, usize)|
                            e == GraphError::InputTypeUnavailable(key.0, key.1) && #[trigger] self.input_type_missing(key);
                        assert(!self.input_type_missing(key));
                    }
                    return Err(e);
                },
            };
            node_inputs.push((id, bindings));
            s = s + 1;
        }
        let output_id = self.output_id;
        let bindings = match self.bind_inputs(output_id, buffer_size) {
            Ok(b) => b,
            Err(e) => {
                return Err(e);
            },
        };
        let ghost sorted_inputs = node_inputs@;
        node_inputs.push((output_id, bindings));
        let plan = BufferPlan { output_buffers, zero_buffer_size, node_inputs };
        proof {
            self.lemma_same_buffers(old(self));
            lemma_entries_view_all(plan.output_buffers@);
            let ob = plan.output_buffers@;
            assert forall|key: (NodeID, usize)| #[trigger]
                entries_view(ob).contains_key(key) <==> self.has_output_buffer(key) by {
                if entries_view(ob).contains_key(key) {
                    let j = choose|j: int| 0 <= j < ob.len() && #[trigger] ob[j].0 == key;
                    assert(self.has_output_buffer(ob[j].0));
                }
            }
            assert forall|key: (NodeID, usize)| #[trigger]
                entries_view(ob).contains_key(key) implies entries_view(ob)[key] == self.output_buffer_size(
                key,
                buffer_size,
            ) by {
                let j = choose|j: int| 0 <= j < ob.len() && #[trigger] ob[j].0 == key;
                assert(ob[j].1 == self.output_buffer_size(ob[j].0, buffer_size));
            }
            let order = self.sorted().push(self.spec_output_id());
            assert forall|j: int| 0 <= j < order.len() implies {
                &&& #[trigger] plan.node_inputs@[j].0 == order[j]
                &&& plan.node_inputs@[j].1@.len() == self.input_count(order[j])
                &&& forall|i: int|
                    0 <= i < plan.node_inputs@[j].1@.len() ==> #[trigger] plan.node_inputs@[j].1@[i]
                        == self.binding((order[j], i as usize), buffer_size)
            } by {
                if j < self.sorted().len() {
                    assert(order[j] == self.sorted_nodes@[j]);
                    assert(plan.node_inputs@[j] == sorted_inputs[j]);
                    assert(plan.node_inputs@[j].0 == order[j]);
                    assert(plan.node_inputs@[j].1@.len() == self.input_count(order[j]));
                    assert forall|i: int|
                        0 <= i < plan.node_inputs@[j].1@.len() implies #[trigger] plan.node_inputs@[j].1@[i]
                            == self.binding((order[j], i as usize), buffer_size) by {
                        assert(sorted_inputs[j].1@[i] == self.binding((self.sorted_nodes@[j], i as usize), buffer_size));
                    }
                } else {
                    assert(order[j] == output_id);
                    assert(plan.node_inputs@[j] == (output_id, bindings));
                }
            }
            assert(old(self).is_processing_order(self.sorted()));
            assert(self.is_zero_buffer_size(plan.zero_buffer_size, buffer_size));
            assert(self.is_buffer_plan(plan, buffer_size));
        }
        Ok(plan)
    }

    /// Two graphs with the same nodes, input sources and input and output ids
    /// need the same buffers.
    proof fn lemma_same_buffers(&self, other: &Self)
        requires
            self.node_map() == other.node_map(),
            self.source_map() == other.source_map(),
            self.spec_input_id() == other.spec_input_id(),
            self.spec_output_id() == other.spec_output_id(),
        ensures
            forall|key: (NodeID, usize)|
                #![trigger self.has_output_buffer(key)]
                #![trigger other.has_output_buffer(key)]
                self.has_output_buffer(key) == other.has_output_buffer(key),
            forall|key: (NodeID, usize)|
                #![trigger self.output_type_missing(key)]
                #![trigger other.output_type_missing(key)]
                self.output_type_missing(key) == other.output_type_missing(key),
            forall|key: (NodeID, usize)|
                #![trigger self.input_type_missing(key)]
                #![trigger other.input_type_missing(key)]
                self.input_type_missing(key) == other.input_type_missing(key),
            forall|from: (NodeID, usize)|
                #![trigger self.edge_without_buffer(from)]
                #![trigger other.edge_without_buffer(from)]
                self.edge_without_buffer(from) == other.edge_without_buffer(from),
            forall|b: usize| #[trigger] self.buffer_sizes_fit(b) == other.buffer_sizes_fit(b),
            self.prepares() == other.prepares(),
            self.buffered_edges_enter_inputs() == other.buffered_edges_enter_inputs(),
    {
        assert forall|b: usize| #[trigger] self.buffer_sizes_fit(b) == other.buffer_sizes_fit(b) by {
            if self.buffer_sizes_fit(b) {
                assert forall|key: (NodeID, usize)|
                    #[trigger] other.has_output_buffer(key) && other.node_map()[key.0].spec_output_type(
                        key.1 as int,
                    ) is Some implies other.output_buffer_size(key, b) <= usize::MAX by {
                    assert(self.has_output_buffer(key));
                }
                assert forall|key: (NodeID, usize)|
                    #[trigger] other.is_input(key) && other.node_map()[key.0].spec_input_type(key.1 as int) is Some
                        implies other.input_buffer_size(key, b) <= usize::MAX by {
                    assert(self.is_input(key));
                }
            }
            if other.buffer_sizes_fit(b) {
                assert forall|key: (NodeID, usize)|
                    #[trigger] self.has_output_buffer(key) && self.node_map()[key.0].spec_output_type(
                        key.1 as int,
                    ) is Some implies self.output_buffer_size(key, b) <= usize::MAX by {
                    assert(other.has_output_buffer(key));
                }
                assert forall|key: (NodeID, usize)|
                    #[trigger] self.is_input(key) && self.node_map()[key.0].spec_input_type(key.1 as int) is Some
                        implies self.input_buffer_size(key, b) <= usize::MAX by {
                    assert(other.is_input(key));
                }
            }
        }
        if self.prepares() {
            assert forall|key: (NodeID, usize)| !#[trigger] other.output_type_missing(key) by {
                assert(!self.output_type_missing(key));
            }
            assert forall|key: (NodeID, usize)| !#[trigger] other.input_type_missing(key) by {
                assert(!self.input_type_missing(key));
            }
            assert forall|from: (NodeID, usize)| !#[trigger] other.edge_without_buffer(from) by {
                assert(!self.edge_without_buffer(from));
            }
        }
        if other.prepares() {
            assert forall|key: (NodeID, usize)| !#[trigger] self.output_type_missing(key) by {
                assert(!other.output_type_missing(key));
            }
            assert forall|key: (NodeID, usize)| !#[trigger] self.input_type_missing(key) by {
                assert(!other.input_type_missing(key));
            }
            assert forall|from: (NodeID, usize)| !#[trigger] self.edge_without_buffer(from) by {
                assert(!other.edge_without_buffer(from));
            }
        }
        if self.buffered_edges_enter_inputs() {
            assert forall|key: (NodeID, usize)|
                #[trigger] other.source_map().contains_key(key) && (other.source_map()[key] matches InputSource::Edge(
                    f,
                    o,
                ) && other.has_output_buffer((f, o))) implies other.is_input(key) by {
                assert(self.source_map().contains_key(key));
            }
        }
        if other.buffered_edges_enter_inputs() {
            assert forall|key: (NodeID, usize)|
                #[trigger] self.source_map().contains_key(key) && (self.source_map()[key] matches InputSource::Edge(
                    f,
                    o,
                ) && self.has_output_buffer((f, o))) implies self.is_input(key) by {
                assert(other.source_map().contains_key(key));
            }
        }
    }

    /// Whether the output `key` gets a buffer.
    fn output_gets_buffer(&self, key: (NodeID, usize)) -> (gets: bool)
        requires
            self.wf(),
        ensures
            gets == self.has_output_buffer(key),
    {
        proof {
            lemma_entries_view_all(self.nodes@);
        }
        match self.find_node(&key.0) {
            Some(i) => {
                proof {
                    lemma_entries_view_index(self.nodes@, i as int);
                }
                (key.0 == self.input_id || key.0 != self.output_id) && key.1
                    < self.nodes[i].1.get_output_len()
            },
            None => false,
        }
    }

    /// Appends a buffer size for each output of the node at `index`, or finds
    /// the first of its outputs without a type.
    fn push_output_buffers(
        &self,
        index: usize,
        buffer_size: usize,
        buffers: &mut Vec<((NodeID, usize), usize)>,
    ) -> (result: Result<(), GraphError>)
        requires
            self.wf(),
            index < self.nodes.len(),
            self.gets_output_buffers(self.nodes@[index as int].0),
            self.buffer_sizes_fit(buffer_size),
        ensures
            self.node_map()[self.nodes@[index as int].0].spec_output_len() <= usize::MAX,
            ({
                let id = self.nodes@[index as int].0;
                let len = self.node_map()[id].spec_output_len();
                match result {
                    Ok(()) => {
                        &&& final(buffers)@.len() == old(buffers)@.len() + len
                        &&& forall|j: int| 0 <= j < old(buffers)@.len() ==> #[trigger] final(buffers)@[j] == old(buffers)@[j]
                        &&& forall|k: int|
                            0 <= k < len ==> #[trigger] final(buffers)@[old(buffers)@.len() + k] == (
                                (id, k as usize),
                                self.output_buffer_size((id, k as usize), buffer_size) as usize,
                            )
                        &&& forall|k: usize| k < len ==> !#[trigger] self.output_type_missing((id, k))
                    },
                    Err(e) => exists|k: usize|
                        e == GraphError::OutputTypeUnavailable(id, k) && #[trigger] self.output_type_missing((id, k)),
                }
            }),
    {
        proof {
            lemma_entries_view_index(self.nodes@, index as int);
        }
        let id = self.nodes[index].0;
        let len = self.nodes[index].1.get_output_len();
        let ghost start = buffers@.len();
        let mut k: usize = 0;
        while k < len
            invariant
                self.wf(),
                index < self.nodes.len(),
                id == self.nodes@[index as int].0,
                self.node_map()[id] == self.nodes@[index as int].1,
                self.gets_output_buffers(id),
                self.buffer_sizes_fit(buffer_size),
                len == self.node_map()[id].spec_output_len(),
                k <= len,
                start == old(buffers)@.len(),
                buffers@.len() == start + k,
                forall|j: int| 0 <= j < start ==> #[trigger] buffers@[j] == old(buffers)@[j],
                forall|m: int|
                    0 <= m < k ==> #[trigger] buffers@[start + m] == (
                        (id, m as usize),
                        self.output_buffer_size((id, m as usize), buffer_size) as usize,
                    ),
                forall|m: usize| m < k ==> !#[trigger] self.output_type_missing((id, m)),
            decreases len - k,
        {
            let output_type = match self.nodes[index].1.get_output_type(k) {
                Some(t) => *t,
                None => {
                    assert(self.output_type_missing((id, k)));
                    return Err(GraphError::OutputTypeUnavailable(id, k));
                },
            };
            assert(self.has_output_buffer((id, k)));
            let size = output_type.actual_size(buffer_size);
            buffers.push(((id, k), size));
            k = k + 1;
        }
        Ok(())
    }
}

/// In a buffer plan, every input reads what its source names: an input fed
/// by zeros, or by nothing, reads the shared zeros; only an input fed by
/// keyframes gets a keyframe buffer of its own, of the input's sample size
/// times the buffer size; and an input fed by an edge reads that output's
/// buffer when the output has one (it belongs to an existing node that runs
/// before the output node), and zeros when it has none.
pub proof fn lemma_plan_follows_sources<N: Node>(
    graph: Graph<N>,
    plan: BufferPlan,
    buffer_size: usize,
    j: int,
    i: int,
)
    requires
        graph.is_buffer_plan(plan, buffer_size),
        0 <= j < plan.node_inputs@.len(),
        0 <= i < plan.node_inputs@[j].1@.len(),
    ensures
        ({
            let n = plan.node_inputs@[j].0;
            let key = (n, i as usize);
            let sources = graph.source_map();
            let nodes = graph.node_map();
            let bound = plan.node_inputs@[j].1@[i];
            &&& !sources.contains_key(key) ==> bound == InputBinding::Zero
            &&& sources.contains_key(key) && sources[key] is Zero ==> bound == InputBinding::Zero
            &&& sources.contains_key(key) && sources[key] is Keyframe ==> bound == InputBinding::Keyframe(
                (nodes[n].spec_input_type((i as usize) as int)->Some_0.sample_size * buffer_size) as usize,
            )
            &&& bound is Keyframe ==> sources.contains_key(key) && sources[key] is Keyframe
            &&& bound is Zero ==> !sources.contains_key(key) || !(sources[key] is Keyframe)
            &&& bound matches InputBinding::Output(f, o) ==> {
                &&& sources.contains_key(key)
                &&& sources[key] == InputSource::Edge(f, o)
                &&& nodes.contains_key(f)
                &&& (f == graph.spec_input_id() || f != graph.spec_output_id())
                &&& o < nodes[f].spec_output_len()
            }
            &&& (sources.contains_key(key) && (sources[key] matches InputSource::Edge(f, o) && nodes.contains_key(
                f,
            ) && (f == graph.spec_input_id() || f != graph.spec_output_id()) && o < nodes[f].spec_output_len()))
                ==> bound == InputBinding::Output(sources[key]->Edge_0, sources[key]->Edge_1)
            &&& (sources.contains_key(key) && (sources[key] matches InputSource::Edge(f, o) && !(nodes.contains_key(
                f,
            ) && (f == graph.spec_input_id() || f != graph.spec_output_id()) && o < nodes[f].spec_output_len())))
                ==> bound == InputBinding::Zero
        }),
{
    let order = graph.sorted().push(graph.spec_output_id());
    assert(plan.node_inputs@[j].0 == order[j]);
    assert(plan.node_inputs@[j].1@[i] == graph.binding((order[j], i as usize), buffer_size));
}

/// A buffer plan holds one buffer for each output of the input node and of
/// every other node but the output node, and no other; each has the
/// output's sample size times the buffer size in bytes.
pub proof fn lemma_plan_output_buffers<N: Node>(
    graph: Graph<N>,
    plan: BufferPlan,
    buffer_size: usize,
    key: (NodeID, usize),
)
    requires
        graph.is_buffer_plan(plan, buffer_size),
    ensures
        entries_view(plan.output_buffers@).contains_key(key) <==> {
            &&& graph.node_map().contains_key(key.0)
            &&& (key.0 == graph.spec_input_id() || key.0 != graph.spec_output_id())
            &&& key.1 < graph.node_map()[key.0].spec_output_len()
        },
        entries_view(plan.output_buffers@).contains_key(key) ==> entries_view(plan.output_buffers@)[key]
            == graph.node_map()[key.0].spec_output_type(key.1 as int)->Some_0.sample_size * buffer_size,
{
    assert(entries_view(plan.output_buffers@).contains_key(key) <==> graph.has_output_buffer(key));
}

/// A buffer plan binds the inputs of every sorted node in the processing
/// order and then those of the output node, each node with as many bindings
/// as it has inputs; its shared buffer of zeros has at least 4 bytes, is as
/// large as the buffer of every input of every node, and is no larger than
/// 4 bytes or the largest of those buffers.
pub proof fn lemma_plan_covers_every_input<N: Node>(graph: Graph<N>, plan: BufferPlan, buffer_size: usize)
    requires
        graph.is_buffer_plan(plan, buffer_size),
    ensures
        plan.node_inputs@.len() == graph.sorted().len() + 1,
        forall|j: int| 0 <= j < graph.sorted().len() ==> #[trigger] plan.node_inputs@[j].0 == graph.sorted()[j],
        plan.node_inputs@[graph.sorted().len() as int].0 == graph.spec_output_id(),
        forall|j: int|
            0 <= j < plan.node_inputs@.len() ==> #[trigger] plan.node_inputs@[j].1@.len() == if graph.node_map().contains_key(
                plan.node_inputs@[j].0,
            ) {
                graph.node_map()[plan.node_inputs@[j].0].spec_input_len()
            } else {
                0
            },
        plan.zero_buffer_size >= 4,
        forall|key: (NodeID, usize)|
            graph.node_map().contains_key(key.0) && key.1 < #[trigger] graph.node_map()[key.0].spec_input_len()
                ==> plan.zero_buffer_size >= graph.node_map()[key.0].spec_input_type(key.1 as int)->Some_0.sample_size
                * buffer_size,
        plan.zero_buffer_size == 4 || exists|key: (NodeID, usize)|
            graph.node_map().contains_key(key.0) && key.1 < #[trigger] graph.node_map()[key.0].spec_input_len()
                && plan.zero_buffer_size == graph.node_map()[key.0].spec_input_type(key.1 as int)->Some_0.sample_size
                * buffer_size,
{
    let order = graph.sorted().push(graph.spec_output_id());
    assert forall|j: int| 0 <= j < graph.sorted().len() implies #[trigger] plan.node_inputs@[j].0
        == graph.sorted()[j] by {
        assert(plan.node_inputs@[j].0 == order[j]);
    }
    assert(plan.node_inputs@[graph.sorted().len() as int].0 == order[graph.sorted().len() as int]);
    assert forall|j: int| 0 <= j < plan.node_inputs@.len() implies #[trigger] plan.node_inputs@[j].1@.len()
        == graph.input_count(plan.node_inputs@[j].0) by {
        assert(plan.node_inputs@[j].0 == order[j]);
    }
    assert forall|key: (NodeID, usize)|
        graph.node_map().contains_key(key.0) && key.1 < #[trigger] graph.node_map()[key.0].spec_input_len()
            implies plan.zero_buffer_size >= graph.node_map()[key.0].spec_input_type(key.1 as int)->Some_0.sample_size
            * buffer_size by {
        assert(graph.is_input(key));
    }
    if plan.zero_buffer_size != 4 {
        let key = choose|key: (NodeID, usize)|
            #[trigger] graph.is_input(key) && plan.zero_buffer_size == graph.input_buffer_size(key, buffer_size);
        assert(graph.node_map().contains_key(key.0) && key.1 < graph.node_map()[key.0].spec_input_len());
    }
}

/// In a prepared graph, an input that reads an output buffer reads one that is
/// written earlier in the block: the input node's, or that of a node before
/// the reading node in the processing order (the output node comes last).
pub proof fn lemma_inputs_read_earlier_outputs<N: Node>(
    graph: Graph<N>,
    plan: BufferPlan,
    buffer_size: usize,
    j: int,
    i: int,
)
    requires
        graph.wf(),
        graph.is_processing_order(graph.sorted()),
        graph.is_buffer_plan(plan, buffer_size),
        0 <= j < plan.node_inputs@.len(),
        0 <= i < plan.node_inputs@[j].1@.len(),
        plan.node_inputs@[j].1@[i] is Output,
    ensures
        ({
            let from = plan.node_inputs@[j].1@[i]->Output_0;
            from == graph.spec_input_id() || exists|k: int| 0 <= k < j && graph.sorted()[k] == from
        }),
{
    let order = graph.sorted().push(graph.spec_output_id());
    let n = order[j];
    let key = (n, i as usize);
    assert(plan.node_inputs@[j].0 == order[j]);
    assert(plan.node_inputs@[j].1@[i] == graph.binding(key, buffer_size));
    let from = plan.node_inputs@[j].1@[i]->Output_0;
    let output = plan.node_inputs@[j].1@[i]->Output_1;
    assert(graph.source_map().contains_key(key));
    assert(graph.source_map()[key] == InputSource::Edge(from, output));
    assert(graph.has_output_buffer((from, output)));
    if from != graph.spec_input_id() {
        assert(graph.node_map().contains_key(from));
        assert(graph.sorted().contains(from));
        let k = choose|k: int| 0 <= k < graph.sorted().len() && graph.sorted()[k] == from;
        assert(graph.has_edge(from, n));
        if j < graph.sorted().len() {
            assert(order[j] == graph.sorted()[j]);
            assert(graph.has_edge(graph.sorted()[k], graph.sorted()[j]));
        }
        assert(0 <= k < j && graph.sorted()[k] == from);
    }
}

} // verus!
