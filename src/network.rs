use vstd::prelude::*;

use crate::shape::{shape_of, Shape};

verus! {

/// A weighted edge into a node from the node numbered `source`.
#[derive(Clone, Copy, Debug, PartialEq, Eq)]
pub struct Connection<V> {
    pub source: usize,
    pub weight: V,
}

/// A node of the network: its bias and its incoming connections, in order.
#[derive(Clone, Debug)]
pub struct Node<V> {
    pub bias: V,
    pub connections: Vec<Connection<V>>,
}

/// Why a network could not be built or fed.
#[derive(Clone, Copy, Debug, PartialEq, Eq)]
pub enum ConfigError {
    /// One of the dimensions is zero.
    InvalidConfiguration,
    /// The number of input values differs from the number of input nodes.
    InvalidInputSize,
}

/// Node `p` of layer `l` has one connection per node of the layer before it,
/// the `c`-th of them from node `c` of that layer (and the input layer has
/// none).
pub open spec fn node_wired<V>(shape: Shape, nodes: Seq<Node<V>>, l: int, p: int) -> bool {
    let node = nodes[shape.node_index(l, p)];
    &&& node.connections@.len() == shape.fan_in(l)
    &&& forall|c: int|
        0 <= c < shape.fan_in(l) ==> (#[trigger] node.connections@[c]).source == shape.node_index(
            l - 1,
            c,
        )
}

/// The nodes are those of `shape`, layer after layer, each fully wired to the
/// layer before it and to no other.
pub open spec fn is_wired<V>(shape: Shape, nodes: Seq<Node<V>>) -> bool {
    &&& nodes.len() == shape.node_count()
    &&& forall|l: int, p: int|
        0 <= l < shape.layer_count() && 0 <= p < shape.layer_size(l) ==> #[trigger] node_wired(
            shape,
            nodes,
            l,
            p,
        )
}

/// Every connection comes from a node with a smaller index.
pub open spec fn feeds_forward<V>(nodes: Seq<Node<V>>) -> bool {
    forall|k: int, c: int|
        0 <= k < nodes.len() && 0 <= c < nodes[k].connections@.len() ==> (
        #[trigger] nodes[k].connections@[c]).source < k
}

/// Node `p` of layer `l` has the bias and the weights that `params` holds for
/// it at `shape.param_offset(l, p)`.
pub open spec fn node_params<V>(shape: Shape, nodes: Seq<Node<V>>, params: Seq<V>, l: int, p: int) -> bool {
    let node = nodes[shape.node_index(l, p)];
    let offset = shape.param_offset(l, p);
    &&& node.bias == params[offset]
    &&& forall|c: int|
        0 <= c < node.connections@.len() ==> (#[trigger] node.connections@[c]).weight == params[offset
            + 1 + c]
}

/// Every node takes its bias and weights from `params`, in the order of
/// `Shape`'s parameter layout.
pub open spec fn holds_params<V>(shape: Shape, nodes: Seq<Node<V>>, params: Seq<V>) -> bool {
    forall|l: int, p: int|
        0 <= l < shape.layer_count() && 0 <= p < shape.layer_size(l) ==> #[trigger] node_params(
            shape,
            nodes,
            params,
            l,
            p,
        )
}

/// The terms of a node's weighted sum: for each connection, its weight and the
/// activation of its source.
pub open spec fn terms<V>(node: Node<V>, activations: Seq<V>) -> Seq<(V, V)> {
    node.connections@.map_values(|c: Connection<V>| (c.weight, activations[c.source as int]))
}

/// `chain` lists the running values of a fold of `step` over `terms` from
/// `start`: `chain[0] == start` and `chain[i + 1]` is a result of
/// `step(chain[i], w_i, a_i)`.
pub open spec fn is_fold_chain<V, F: Fn(V, V, V) -> V>(
    step: F,
    start: V,
    terms: Seq<(V, V)>,
    chain: Seq<V>,
) -> bool {
    &&& chain.len() == terms.len() + 1
    &&& chain[0] == start
    &&& forall|i: int|
        0 <= i < terms.len() ==> call_ensures(
            step,
            (chain[i], (#[trigger] terms[i]).0, terms[i].1),
            chain[i + 1],
        )
}

/// `r` is a possible result of folding `step` over `terms` from `start`:
/// `step(... step(step(start, w0, a0), w1, a1) ..., wn, an)`.
pub open spec fn folds_to<V, F: Fn(V, V, V) -> V>(step: F, start: V, terms: Seq<(V, V)>, r: V) -> bool {
    exists|chain: Seq<V>| #[trigger] is_fold_chain(step, start, terms, chain) && chain.last() == r
}

/// A fold over no terms gives its start.
pub proof fn lemma_folds_to_empty<V, F: Fn(V, V, V) -> V>(step: F, start: V)
    ensures
        folds_to(step, start, Seq::empty(), start),
{
    assert(is_fold_chain(step, start, Seq::empty(), seq![start]));
}

/// One more step of a fold.
pub proof fn lemma_folds_to_push<V, F: Fn(V, V, V) -> V>(
    step: F,
    start: V,
    terms: Seq<(V, V)>,
    m: V,
    r: V,
)
    requires
        terms.len() > 0,
        folds_to(step, start, terms.drop_last(), m),
        call_ensures(step, (m, terms.last().0, terms.last().1), r),
    ensures
        folds_to(step, start, terms, r),
{
    let chain = choose|chain: Seq<V>|
        #[trigger] is_fold_chain(step, start, terms.drop_last(), chain) && chain.last() == m;
    let longer = chain.push(r);
    assert forall|i: int| 0 <= i < terms.len() implies call_ensures(
        step,
        (longer[i], (#[trigger] terms[i]).0, terms[i].1),
        longer[i + 1],
    ) by {
        if i < terms.len() - 1 {
            assert(terms[i] == terms.drop_last()[i]);
        }
    }
    assert(is_fold_chain(step, start, terms, longer));
}

/// Node `k`'s weighted sum is its bias with each `weight * source activation`
/// term accumulated by `step`, over its current connections and the current
/// activations of their sources, and its activation is `act` of that sum.
pub open spec fn is_settled<V, F: Fn(V, V, V) -> V, G: Fn(V) -> V>(
    step: F,
    act: G,
    nodes: Seq<Node<V>>,
    weighted_sums: Seq<V>,
    activations: Seq<V>,
    k: int,
) -> bool {
    &&& folds_to(step, nodes[k].bias, terms(nodes[k], activations), weighted_sums[k])
    &&& call_ensures(act, (weighted_sums[k],), activations[k])
}

/// What a network holds: its shape, its nodes in index order, and each node's
/// latest weighted sum and activation.
pub struct NetworkView<V> {
    pub shape: Shape,
    pub nodes: Seq<Node<V>>,
    pub weighted_sums: Seq<V>,
    pub activations: Seq<V>,
}

impl<V> NetworkView<V> {
    pub open spec fn is_well_formed(self) -> bool {
        &&& self.shape.is_valid()
        &&& is_wired(self.shape, self.nodes)
        &&& feeds_forward(self.nodes)
        &&& self.weighted_sums.len() == self.nodes.len()
        &&& self.activations.len() == self.nodes.len()
    }

    /// Every node past the input layer is settled.
    pub open spec fn is_evaluated<F: Fn(V, V, V) -> V, G: Fn(V) -> V>(self, step: F, act: G) -> bool {
        forall|k: int|
            self.shape.input_count <= k < self.nodes.len() ==> #[trigger] is_settled(
                step,
                act,
                self.nodes,
                self.weighted_sums,
                self.activations,
                k,
            )
    }
}

/// A layered feed-forward network whose nodes live in one arena, numbered
/// layer after layer; a connection names its source by that number.
#[derive(Debug)]
pub struct Network<V> {
    shape: Shape,
    layer_starts: Vec<usize>,
    nodes: Vec<Node<V>>,
    weighted_sums: Vec<V>,
    activations: Vec<V>,
}

impl<V> View for Network<V> {
    type V = NetworkView<V>;

    closed spec fn view(&self) -> NetworkView<V> {
        NetworkView {
            shape: self.shape,
            nodes: self.nodes@,
            weighted_sums: self.weighted_sums@,
            activations: self.activations@,
        }
    }
}

impl<V: Copy> Network<V> {
    /// The index of the first node of each layer, and one past the last node.
    pub closed spec fn layer_index_inv(&self) -> bool {
        &&& self.layer_starts@.len() == self.shape.layer_count() + 1
        &&& forall|l: int|
            0 <= l <= self.shape.layer_count() ==> self.layer_starts@[l] == self.shape.layer_start(
                l,
            )
    }

    pub open spec fn wf(&self) -> bool {
        self@.is_well_formed() && self.layer_index_inv()
    }

    /// Builds a network of `input_count` input nodes, `hidden_layer_count`
    /// hidden layers of `hidden_nodes_per_layer` nodes and `output_count`
    /// output nodes, each layer fully wired to the one before it, then runs one
    /// forward pass.
    ///
    /// `params` holds the biases and weights, in the layout of `Shape`; every
    /// weighted sum and activation starts at `initial`. `step(acc, w, a)` adds
    /// the term `w * a` to a running sum, and `act` turns a weighted sum into
    /// an activation.
    pub fn new<F: Fn(V, V, V) -> V, G: Fn(V) -> V>(
        input_count: u32,
        hidden_layer_count: u32,
        hidden_nodes_per_layer: u32,
        output_count: u32,
        params: &Vec<V>,
        initial: V,
        step: F,
        act: G,
    ) -> (r: Result<Network<V>, ConfigError>)
        requires
            shape_of(input_count, hidden_layer_count, hidden_nodes_per_layer, output_count).is_valid()
                ==> params@.len() == shape_of(
                input_count,
                hidden_layer_count,
                hidden_nodes_per_layer,
                output_count,
            ).param_count(),
            forall|acc: V, w: V, a: V| call_requires(step, (acc, w, a)),
            forall|s: V| call_requires(act, (s,)),
        ensures
            r is Err <==> !shape_of(
                input_count,
                hidden_layer_count,
                hidden_nodes_per_layer,
                output_count,
            ).is_valid(),
            r matches Err(e) ==> e == ConfigError::InvalidConfiguration,
            r matches Ok(net) ==> {
                &&& net.wf()
                &&& net@.shape == shape_of(
                    input_count,
                    hidden_layer_count,
                    hidden_nodes_per_layer,
                    output_count,
                )
                &&& holds_params(net@.shape, net@.nodes, params@)
                &&& net@.is_evaluated(step, act)
                &&& forall|k: int|
                    0 <= k < input_count ==> net@.weighted_sums[k] == initial
                        && net@.activations[k] == initial
            },
    {
        if input_count == 0 || hidden_layer_count == 0 || hidden_nodes_per_layer == 0
            || output_count == 0 {
            return Err(ConfigError::InvalidConfiguration);
        }
        let shape = Shape {
            input_count: input_count as usize,
            hidden_layer_count: hidden_layer_count as usize,
            hidden_nodes_per_layer: hidden_nodes_per_layer as usize,
            output_count: output_count as usize,
        };
        let mut net = Self::wire(shape, params, initial);
        proof {
            shape.lemma_layer_start_monotonic(1, shape.layer_count());
        }
        net.forward(step, act);
        Ok(net)
    }

    /// A node whose bias is `params[offset]` and which has `fan_in`
    /// connections, the `c`-th from node `first_source + c` with weight
    /// `params[offset + 1 + c]`.
    fn new_node(params: &Vec<V>, offset: usize, first_source: usize, fan_in: usize) -> (r: Node<V>)
        requires
            offset + 1 + fan_in <= params.len(),
            first_source + fan_in <= usize::MAX,
        ensures
            r.bias == params@[offset as int],
            r.connections@.len() == fan_in,
            forall|c: int|
                0 <= c < fan_in ==> #[trigger] r.connections@[c] == (Connection {
                    source: (first_source + c) as usize,
                    weight: params@[offset + 1 + c],
                }),
    {
        let mut connections: Vec<Connection<V>> = Vec::new();
        let mut c: usize = 0;
        while c < fan_in
            invariant
                offset + 1 + fan_in <= params.len(),
                first_source + fan_in <= usize::MAX,
                c <= fan_in,
                connections@.len() == c,
                forall|c2: int|
                    0 <= c2 < c ==> #[trigger] connections@[c2] == (Connection {
                        source: (first_source + c2) as usize,
                        weight: params@[offset + 1 + c2],
                    }),
            decreases fan_in - c,
        {
            connections.push(Connection { source: first_source + c, weight: params[offset + 1 + c] });
            c += 1;
        }
        Node { bias: params[offset], connections }
    }

    /// Lays out the nodes of `shape`, wires each layer to the one before it,
    /// and takes every bias and weight from `params`.
    fn wire(shape: Shape, params: &Vec<V>, initial: V) -> (r: Network<V>)
        requires
            shape.is_valid(),
            params.len() == shape.param_count(),
        ensures
            r.wf(),
            r@.shape == shape,
            holds_params(shape, r@.nodes, params@),
            forall|k: int|
                0 <= k < r@.nodes.len() ==> r@.weighted_sums[k] == initial && r@.activations[k]
                    == initial,
    {
        proof {
            shape.lemma_layers_within_nodes(shape.layer_count());
            shape.lemma_nodes_within_params(shape.layer_count());
        }
        let layers: usize = shape.hidden_layer_count + 2;
        let mut nodes: Vec<Node<V>> = Vec::new();
        let mut layer_starts: Vec<usize> = Vec::new();
        let mut start: usize = 0;
        let mut prev_start: usize = 0;
        let mut cursor: usize = 0;
        let mut l: usize = 0;
        while l < layers
            invariant
                shape.is_valid(),
                params@.len() == shape.param_count(),
                shape.param_count() <= usize::MAX,
                shape.node_count() <= shape.param_count(),
                layers == shape.layer_count(),
                l <= layers,
                start == shape.layer_start(l as int),
                l >= 1 ==> prev_start == shape.layer_start(l - 1),
                cursor == shape.layer_param_start(l as int),
                nodes@.len() == start,
                layer_starts@.len() == l,
                forall|i: int| 0 <= i < l ==> layer_starts@[i] == shape.layer_start(i),
                forall|l2: int, p2: int|
                    0 <= l2 < l && 0 <= p2 < shape.layer_size(l2) ==> #[trigger] node_wired(
                        shape,
                        nodes@,
                        l2,
                        p2,
                    ),
                forall|l2: int, p2: int|
                    0 <= l2 < l && 0 <= p2 < shape.layer_size(l2) ==> #[trigger] node_params(
                        shape,
                        nodes@,
                        params@,
                        l2,
                        p2,
                    ),
                feeds_forward(nodes@),
            decreases layers - l,
        {
            proof {
                shape.lemma_layer_start_monotonic(l + 1, shape.layer_count());
            }
            layer_starts.push(start);
            let size: usize = shape.layer_size_exec(l);
            let fan_in: usize = if l == 0 {
                0
            } else {
                shape.layer_size_exec(l - 1)
            };
            let mut p: usize = 0;
            while p < size
                invariant
                    shape.is_valid(),
                    params@.len() == shape.param_count(),
                    shape.param_count() <= usize::MAX,
                    layers == shape.layer_count(),
                    l < layers,
                    size == shape.layer_size(l as int),
                    fan_in == shape.fan_in(l as int),
                    p <= size,
                    start == shape.layer_start(l as int),
                    start + size <= usize::MAX,
                    l >= 1 ==> prev_start == shape.layer_start(l - 1),
                    cursor == shape.param_offset(l as int, p as int),
                    nodes@.len() == start + p,
                    forall|l2: int, p2: int|
                        (0 <= l2 < l && 0 <= p2 < shape.layer_size(l2)) || (l2 == l && 0 <= p2
                            < p) ==> #[trigger] node_wired(shape, nodes@, l2, p2),
                    forall|l2: int, p2: int|
                        (0 <= l2 < l && 0 <= p2 < shape.layer_size(l2)) || (l2 == l && 0 <= p2
                            < p) ==> #[trigger] node_params(shape, nodes@, params@, l2, p2),
                    feeds_forward(nodes@),
                decreases size - p,
            {
                proof {
                    shape.lemma_param_offset_bounds(l as int, p as int);
                }
                let node = Self::new_node(params, cursor, prev_start, fan_in);
                let ghost old_nodes = nodes@;
                nodes.push(node);
                proof {
                    let k = start + p;
                    assert(shape.node_index(l as int, p as int) == k);
                    assert forall|l2: int, p2: int|
                        (0 <= l2 < l && 0 <= p2 < shape.layer_size(l2)) || (l2 == l && 0 <= p2
                            <= p) implies #[trigger] node_wired(shape, nodes@, l2, p2) by {
                        if l2 < l {
                            shape.lemma_layer_start_monotonic(l2 + 1, l as int);
                            assert(node_wired(shape, old_nodes, l2, p2));
                        } else if p2 < p {
                            assert(node_wired(shape, old_nodes, l2, p2));
                        }
                    }
                    assert forall|l2: int, p2: int|
                        (0 <= l2 < l && 0 <= p2 < shape.layer_size(l2)) || (l2 == l && 0 <= p2
                            <= p) implies #[trigger] node_params(shape, nodes@, params@, l2, p2) by {
                        if l2 < l {
                            shape.lemma_layer_start_monotonic(l2 + 1, l as int);
                            assert(node_params(shape, old_nodes, params@, l2, p2));
                        } else if p2 < p {
                            assert(node_params(shape, old_nodes, params@, l2, p2));
                        }
                    }
                    assert forall|k2: int, c2: int|
                        0 <= k2 < nodes@.len() && 0 <= c2 < nodes@[k2].connections@.len()
                            implies (#[trigger] nodes@[k2].connections@[c2]).source < k2 by {
                        if k2 < k {
                            assert(old_nodes[k2] == nodes@[k2]);
                        }
                    }
                }
                cursor = cursor + 1 + fan_in;
                p += 1;
            }
            prev_start = start;
            start = start + size;
            l += 1;
        }
        layer_starts.push(start);
        let n = start;
        let mut weighted_sums: Vec<V> = Vec::new();
        let mut activations: Vec<V> = Vec::new();
        let mut k: usize = 0;
        while k < n
            invariant
                k <= n,
                weighted_sums@.len() == k,
                activations@.len() == k,
                forall|i: int| 0 <= i < k ==> weighted_sums@[i] == initial,
                forall|i: int| 0 <= i < k ==> activations@[i] == initial,
            decreases n - k,
        {
            weighted_sums.push(initial);
            activations.push(initial);
            k += 1;
        }
        Network { shape, layer_starts, nodes, weighted_sums, activations }
    }

    /// The weighted sum of node `k` from the current activations of its
    /// sources: its bias with each connection's term accumulated by `step`, in
    /// connection order.
    fn calculate_weighted_sum<F: Fn(V, V, V) -> V>(&self, k: usize, step: &F) -> (r: V)
        requires
            self.wf(),
            k < self@.nodes.len(),
            forall|acc: V, w: V, a: V| call_requires(*step, (acc, w, a)),
        ensures
            folds_to(*step, self@.nodes[k as int].bias, terms(self@.nodes[k as int], self@.activations), r),
    {
        let ghost node = self.nodes@[k as int];
        let ghost ts = terms(node, self.activations@);
        let mut acc = self.nodes[k].bias;
        let m = self.nodes[k].connections.len();
        let mut c: usize = 0;
        assert(ts.take(0) =~= Seq::<(V, V)>::empty());
        proof {
            lemma_folds_to_empty(*step, node.bias);
        }
        while c < m
            invariant
                self.wf(),
                k < self@.nodes.len(),
                node == self.nodes@[k as int],
                ts == terms(node, self.activations@),
                m == node.connections@.len(),
                c <= m,
                forall|acc: V, w: V, a: V| call_requires(*step, (acc, w, a)),
                folds_to(*step, node.bias, ts.take(c as int), acc),
            decreases m - c,
        {
            let source = self.nodes[k].connections[c].source;
            let weight = self.nodes[k].connections[c].weight;
            assert(node.connections@[c as int].source < k);
            let a = self.activations[source];
            let next = step(acc, weight, a);
            proof {
                let t = ts.take(c + 1);
                assert(ts.len() == m);
                assert(t.len() == c + 1);
                assert(t.drop_last() =~= ts.take(c as int));
                assert(t.last() == (weight, a));
                lemma_folds_to_push(*step, node.bias, t, acc, next);
            }
            acc = next;
            c += 1;
        }
        assert(ts.take(m as int) =~= ts);
        acc
    }

    /// One forward pass: recomputes, in index order (the hidden layers in
    /// turn, then the output layer), the weighted sum and the activation of
    /// every node past the input layer from the activations of its sources.
    /// The input layer keeps its values.
    pub fn forward<F: Fn(V, V, V) -> V, G: Fn(V) -> V>(&mut self, step: F, act: G)
        requires
            old(self).wf(),
            forall|acc: V, w: V, a: V| call_requires(step, (acc, w, a)),
            forall|s: V| call_requires(act, (s,)),
        ensures
            final(self).wf(),
            final(self)@.shape == old(self)@.shape,
            final(self)@.nodes == old(self)@.nodes,
            final(self)@.is_evaluated(step, act),
            forall|k: int|
                0 <= k < old(self)@.shape.input_count ==> final(self)@.weighted_sums[k] == old(
                    self,
                )@.weighted_sums[k] && final(self)@.activations[k] == old(self)@.activations[k],
    {
        let n = self.nodes.len();
        let mut k: usize = self.shape.input_count;
        proof {
            self.shape.lemma_layer_start_monotonic(1, self.shape.layer_count());
        }
        while k < n
            invariant
                self.wf(),
                n == self@.nodes.len(),
                self.shape == old(self).shape,
                self.nodes@ == old(self).nodes@,
                self.layer_starts@ == old(self).layer_starts@,
                self.shape.input_count <= k <= n,
                forall|acc: V, w: V, a: V| call_requires(step, (acc, w, a)),
                forall|s: V| call_requires(act, (s,)),
                forall|j: int|
                    self.shape.input_count <= j < k ==> #[trigger] is_settled(
                        step,
                        act,
                        self.nodes@,
                        self.weighted_sums@,
                        self.activations@,
                        j,
                    ),
                forall|j: int|
                    0 <= j < self.shape.input_count ==> self.weighted_sums@[j] == old(
                        self,
                    ).weighted_sums@[j] && self.activations@[j] == old(self).activations@[j],
            decreases n - k,
        {
            let acc = self.calculate_weighted_sum(k, &step);
            let out = act(acc);
            let ghost old_acts = self.activations@;
            let ghost old_sums = self.weighted_sums@;
            self.weighted_sums.set(k, acc);
            self.activations.set(k, out);
            proof {
                assert forall|j: int| self.shape.input_count <= j <= k implies #[trigger] is_settled(
                    step,
                    act,
                    self.nodes@,
                    self.weighted_sums@,
                    self.activations@,
                    j,
                ) by {
                    let nj = self.nodes@[j];
                    assert forall|c2: int| 0 <= c2 < nj.connections@.len() implies (
                    #[trigger] nj.connections@[c2]).source < j by {}
                    assert(terms(nj, self.activations@) =~= terms(nj, old_acts));
                    if j < k {
                        assert(is_settled(step, act, self.nodes@, old_sums, old_acts, j));
                    }
                }
            }
            k += 1;
        }
    }

    /// Sets the activations of the input nodes to `values`, in order.
    ///
    /// Fails with `InvalidInputSize`, and changes nothing, when `values` does
    /// not hold exactly one value per input node.
    pub fn set_input_activations(&mut self, values: &Vec<V>) -> (r: Result<(), ConfigError>)
        requires
            old(self).wf(),
        ensures
            final(self).wf(),
            r is Err <==> values@.len() != old(self)@.shape.input_count,
            r matches Err(e) ==> e == ConfigError::InvalidInputSize && final(self)@ == old(self)@,
            r is Ok ==> final(self)@ == (NetworkView {
                activations: values@ + old(self)@.activations.skip(values@.len() as int),
                ..old(self)@
            }),
    {
        let count = self.shape.input_count;
        if values.len() != count {
            return Err(ConfigError::InvalidInputSize);
        }
        proof {
            self.shape.lemma_layer_start_monotonic(1, self.shape.layer_count());
        }
        let ghost old_acts = self.activations@;
        let mut i: usize = 0;
        while i < count
            invariant
                self.wf(),
                self.shape == old(self).shape,
                self.nodes@ == old(self).nodes@,
                self.weighted_sums@ == old(self).weighted_sums@,
                self.layer_starts@ == old(self).layer_starts@,
                old_acts == old(self).activations@,
                old_acts.len() == self.activations@.len(),
                count == self.shape.input_count,
                count <= self.activations@.len(),
                values@.len() == count,
                i <= count,
                self.activations@ =~= values@.take(i as int) + old_acts.skip(i as int),
            decreases count - i,
        {
            self.activations.set(i, values[i]);
            assert(values@.take(i + 1) =~= values@.take(i as int).push(values@[i as int]));
            i += 1;
        }
        assert(values@.take(count as int) =~= values@);
        Ok(())
    }

    /// The dimensions of the network.
    pub fn shape(&self) -> (r: Shape)
        ensures
            r == self@.shape,
    {
        self.shape
    }

    /// The number of nodes over all layers.
    pub fn node_count(&self) -> (r: usize)
        ensures
            r == self@.nodes.len(),
    {
        self.nodes.len()
    }

    /// The number of layers: input, hidden and output.
    pub fn layer_count(&self) -> (r: usize)
        requires
            self.wf(),
        ensures
            r == self@.shape.layer_count(),
    {
        self.layer_starts.len() - 1
    }

    /// The index of the first node of layer `l`; for `l == layer_count()`, the
    /// number of nodes.
    pub fn layer_start(&self, l: usize) -> (r: usize)
        requires
            self.wf(),
            l <= self@.shape.layer_count(),
        ensures
            r == self@.shape.layer_start(l as int),
    {
        self.layer_starts[l]
    }

    /// The number of nodes of layer `l`.
    pub fn layer_size(&self, l: usize) -> (r: usize)
        requires
            self.wf(),
            l < self@.shape.layer_count(),
        ensures
            r == self@.shape.layer_size(l as int),
    {
        self.shape.layer_size_exec(l)
    }

    /// Node `k`.
    pub fn node(&self, k: usize) -> (r: &Node<V>)
        requires
            k < self@.nodes.len(),
        ensures
            *r == self@.nodes[k as int],
    {
        &self.nodes[k]
    }

    /// The latest weighted sum of node `k`.
    pub fn weighted_sum(&self, k: usize) -> (r: V)
        requires
            self.wf(),
            k < self@.nodes.len(),
        ensures
            r == self@.weighted_sums[k as int],
    {
        self.weighted_sums[k]
    }

    /// The latest activation of node `k`.
    pub fn activation(&self, k: usize) -> (r: V)
        requires
            self.wf(),
            k < self@.nodes.len(),
        ensures
            r == self@.activations[k as int],
    {
        self.activations[k]
    }

    /// The activations of the output layer, in order.
    pub fn output_activations(&self) -> (r: Vec<V>)
        requires
            self.wf(),
        ensures
            r@ == self@.activations.subrange(
                self@.shape.layer_start(self@.shape.hidden_layer_count + 1) as int,
                self@.nodes.len() as int,
            ),
    {
        let last = self.layer_starts.len() - 2;
        let start = self.layer_starts[last];
        let n = self.activations.len();
        proof {
            self.shape.lemma_layer_start_monotonic(last as int, self.shape.layer_count());
        }
        let mut r: Vec<V> = Vec::new();
        let mut k: usize = start;
        while k < n
            invariant
                self.wf(),
                start <= k <= n,
                n == self@.activations.len(),
                r@ =~= self@.activations.subrange(start as int, k as int),
            decreases n - k,
        {
            r.push(self.activations[k]);
            k += 1;
        }
        r
    }
}

/// In a well-formed network, every node of layer `l` has as many incoming
/// connections as layer `l - 1` has nodes, and the input nodes have none.
pub proof fn lemma_connection_counts<V: Copy>(net: &Network<V>)
    requires
        net.wf(),
    ensures
        forall|l: int, p: int|
            0 <= l < net@.shape.layer_count() && 0 <= p < net@.shape.layer_size(l) ==> (#[trigger] net@.nodes[net@.shape.node_index(l, p)]).connections@.len()
                == if l == 0 {
                0
            } else {
                net@.shape.layer_size(l - 1)
            },
        forall|k: int|
            0 <= k < net@.shape.input_count ==> (#[trigger] net@.nodes[k]).connections@.len() == 0,
{
    let shape = net@.shape;
    assert forall|l: int, p: int|
        0 <= l < shape.layer_count() && 0 <= p < shape.layer_size(l) implies (
        #[trigger] net@.nodes[shape.node_index(l, p)]).connections@.len() == if l == 0 {
            0
        } else {
            shape.layer_size(l - 1)
        } by {
        assert(node_wired(shape, net@.nodes, l, p));
    }
    assert forall|k: int| 0 <= k < shape.input_count implies (
    #[trigger] net@.nodes[k]).connections@.len() == 0 by {
        assert(node_wired(shape, net@.nodes, 0, k));
    }
}

/// Two well-formed networks of one shape that take their parameters from the
/// same sequence have the same nodes: the same biases, and the same
/// connections with the same weights.
pub proof fn lemma_same_params_same_nodes<V: Copy>(a: &Network<V>, b: &Network<V>, params: Seq<V>)
    requires
        a.wf(),
        b.wf(),
        a@.shape == b@.shape,
        holds_params(a@.shape, a@.nodes, params),
        holds_params(b@.shape, b@.nodes, params),
    ensures
        a@.nodes.len() == b@.nodes.len(),
        forall|k: int|
            0 <= k < a@.nodes.len() ==> (#[trigger] a@.nodes[k]).bias == b@.nodes[k].bias
                && a@.nodes[k].connections@ == b@.nodes[k].connections@,
{
    let shape = a@.shape;
    assert forall|k: int| 0 <= k < a@.nodes.len() implies (#[trigger] a@.nodes[k]).bias
        == b@.nodes[k].bias && a@.nodes[k].connections@ == b@.nodes[k].connections@ by {
        let (l, p) = shape.lemma_locate_node(k, shape.layer_count());
        assert(node_wired(shape, a@.nodes, l, p));
        assert(node_wired(shape, b@.nodes, l, p));
        assert(node_params(shape, a@.nodes, params, l, p));
        assert(node_params(shape, b@.nodes, params, l, p));
        assert(a@.nodes[k].connections@ =~= b@.nodes[k].connections@);
    }
}

} // verus!
