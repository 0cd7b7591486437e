use vstd::prelude::*;

verus! {

/// The dimensions of a layered network.
///
/// Layer `0` is the input layer, layers `1 ..= hidden_layer_count` are the
/// hidden layers, and layer `hidden_layer_count + 1` is the output layer. Nodes
/// are numbered layer after layer, and every node has a bias followed by one
/// weight per node of the preceding layer; the parameters are laid out in that
/// same order.
#[derive(Clone, Copy, Debug, PartialEq, Eq)]
pub struct Shape {
    pub input_count: usize,
    pub hidden_layer_count: usize,
    pub hidden_nodes_per_layer: usize,
    pub output_count: usize,
}

impl Shape {
    /// Every stage has at least one node.
    pub open spec fn is_valid(self) -> bool {
        &&& self.input_count > 0
        &&& self.hidden_layer_count > 0
        &&& self.hidden_nodes_per_layer > 0
        &&& self.output_count > 0
    }

    pub open spec fn layer_count(self) -> int {
        self.hidden_layer_count + 2
    }

    pub open spec fn layer_size(self, l: int) -> nat {
        if l == 0 {
            self.input_count as nat
        } else if 1 <= l <= self.hidden_layer_count {
            self.hidden_nodes_per_layer as nat
        } else if l == self.hidden_layer_count + 1 {
            self.output_count as nat
        } else {
            0
        }
    }

    /// The number of incoming connections of each node of layer `l`: the size
    /// of the layer before it, and none for the input layer.
    pub open spec fn fan_in(self, l: int) -> nat {
        if l <= 0 {
            0
        } else {
            self.layer_size(l - 1)
        }
    }

    /// The index of the first node of layer `l`.
    pub open spec fn layer_start(self, l: int) -> nat
        decreases l,
    {
        if l <= 0 {
            0
        } else {
            self.layer_start(l - 1) + self.layer_size(l - 1)
        }
    }

    pub open spec fn node_count(self) -> nat {
        self.layer_start(self.layer_count())
    }

    /// The index of node `p` of layer `l`.
    pub open spec fn node_index(self, l: int, p: int) -> int {
        self.layer_start(l) + p
    }

    /// The index of the first parameter of layer `l`.
    pub open spec fn layer_param_start(self, l: int) -> nat
        decreases l,
    {
        if l <= 0 {
            0
        } else {
            self.layer_param_start(l - 1) + self.layer_size(l - 1) * (1 + self.fan_in(l - 1))
        }
    }

    /// The index of the bias of node `p` of layer `l`; its weights follow it.
    pub open spec fn param_offset(self, l: int, p: int) -> int {
        self.layer_param_start(l) + p * (1 + self.fan_in(l))
    }

    /// How many parameters a network of this shape takes.
    pub open spec fn param_count(self) -> nat {
        self.layer_param_start(self.layer_count())
    }

    pub proof fn lemma_layer_start_monotonic(self, a: int, b: int)
        requires
            a <= b,
        ensures
            self.layer_start(a) <= self.layer_start(b),
        decreases b - a,
    {
        if a < b {
            self.lemma_layer_start_monotonic(a, b - 1);
        }
    }

    pub proof fn lemma_param_start_monotonic(self, a: int, b: int)
        requires
            a <= b,
        ensures
            self.layer_param_start(a) <= self.layer_param_start(b),
        decreases b - a,
    {
        if a < b {
            self.lemma_param_start_monotonic(a, b - 1);
            let s = self.layer_size(b - 1);
            let f = self.fan_in(b - 1);
            assert(s * (1 + f) >= 0) by (nonlinear_arith)
                requires
                    f >= 0,
            ;
        }
    }

    /// The parameters of node `p` of layer `l` lie within those of its layer,
    /// and the next node's follow them.
    pub proof fn lemma_param_offset_bounds(self, l: int, p: int)
        requires
            0 <= l < self.layer_count(),
            0 <= p < self.layer_size(l),
        ensures
            self.param_offset(l, p + 1) == self.param_offset(l, p) + 1 + self.fan_in(l),
            self.param_offset(l, p) + 1 + self.fan_in(l) <= self.layer_param_start(l + 1),
            self.layer_param_start(l + 1) <= self.param_count(),
    {
        let f = self.fan_in(l);
        let s = self.layer_size(l);
        assert((p + 1) * (1 + f) == p * (1 + f) + 1 + f) by (nonlinear_arith);
        assert((p + 1) * (1 + f) <= s * (1 + f)) by (nonlinear_arith)
            requires
                p + 1 <= s,
                f >= 0,
        ;
        self.lemma_param_start_monotonic(l + 1, self.layer_count());
    }

    /// The layer and the position within it of node `k`, for `k` below
    /// `layer_start(l)`.
    pub proof fn lemma_locate_node(self, k: int, l: int) -> (lp: (int, int))
        requires
            0 <= k < self.layer_start(l),
        ensures
            0 <= lp.0 < l,
            0 <= lp.1 < self.layer_size(lp.0),
            k == self.node_index(lp.0, lp.1),
        decreases l,
    {
        if k >= self.layer_start(l - 1) {
            (l - 1, k - self.layer_start(l - 1))
        } else {
            self.lemma_locate_node(k, l - 1)
        }
    }

    /// In a valid shape every layer has a node.
    pub proof fn lemma_layers_within_nodes(self, l: int)
        requires
            self.is_valid(),
            0 <= l <= self.layer_count(),
        ensures
            self.layer_start(l) >= l,
        decreases l,
    {
        if l > 0 {
            self.lemma_layers_within_nodes(l - 1);
        }
    }

    /// There are no more nodes than parameters: each node has its bias.
    pub proof fn lemma_nodes_within_params(self, l: int)
        ensures
            self.layer_start(l) <= self.layer_param_start(l),
        decreases l,
    {
        if l > 0 {
            self.lemma_nodes_within_params(l - 1);
            let s = self.layer_size(l - 1);
            let f = self.fan_in(l - 1);
            assert(s * (1 + f) >= s) by (nonlinear_arith)
                requires
                    f >= 0,
            ;
        }
    }
}

/// The shape with the given dimensions.
pub open spec fn shape_of(
    input_count: u32,
    hidden_layer_count: u32,
    hidden_nodes_per_layer: u32,
    output_count: u32,
) -> Shape {
    Shape {
        input_count: input_count as usize,
        hidden_layer_count: hidden_layer_count as usize,
        hidden_nodes_per_layer: hidden_nodes_per_layer as usize,
        output_count: output_count as usize,
    }
}

/// How many parameters (biases and weights) a network with these dimensions
/// takes, or `None` where that number does not fit in a `usize`.
pub fn param_count(
    input_count: u32,
    hidden_layer_count: u32,
    hidden_nodes_per_layer: u32,
    output_count: u32,
) -> (r: Option<usize>)
    ensures
        ({
            let shape = shape_of(input_count, hidden_layer_count, hidden_nodes_per_layer, output_count);
            &&& r matches Some(n) ==> n == shape.param_count()
            &&& shape.is_valid() ==> (r is None <==> shape.param_count() > usize::MAX)
        }),
{
    let shape = Shape {
        input_count: input_count as usize,
        hidden_layer_count: hidden_layer_count as usize,
        hidden_nodes_per_layer: hidden_nodes_per_layer as usize,
        output_count: output_count as usize,
    };
    let layers: usize = match shape.hidden_layer_count.checked_add(2) {
        Some(n) => n,
        None => {
            proof {
                if shape.is_valid() {
                    shape.lemma_layers_within_nodes(shape.layer_count());
                    shape.lemma_nodes_within_params(shape.layer_count());
                }
            }
            return None;
        },
    };
    let mut total: usize = 0;
    let mut l: usize = 0;
    while l < layers
        invariant
            layers == shape.layer_count(),
            shape == shape_of(input_count, hidden_layer_count, hidden_nodes_per_layer, output_count),
            l <= layers,
            total == shape.layer_param_start(l as int),
        decreases layers - l,
    {
        let size: usize = shape.layer_size_exec(l);
        let fan_in: usize = if l == 0 { 0 } else { shape.layer_size_exec(l - 1) };
        let per_node: usize = match fan_in.checked_add(1) {
            Some(n) => n,
            None => {
                proof {
                    shape.lemma_param_start_monotonic(l + 1, shape.layer_count());
                    let f = shape.fan_in(l as int);
                    if shape.is_valid() {
                        assert(size * (1 + f) >= 1 + f) by (nonlinear_arith)
                            requires
                                size >= 1,
                                f >= 0,
                        ;
                    }
                }
                return None;
            },
        };
        match size.checked_mul(per_node) {
            Some(layer_total) => match total.checked_add(layer_total) {
                Some(t) => {
                    total = t;
                },
                None => {
                    proof { shape.lemma_param_start_monotonic(l + 1, shape.layer_count()); }
                    return None;
                },
            },
            None => {
                proof {
                    shape.lemma_param_start_monotonic(l + 1, shape.layer_count());
                    assert(total + size * per_node >= size * per_node);
                }
                return None;
            },
        }
        l += 1;
    }
    Some(total)
}

impl Shape {
    /// The number of nodes of layer `l`.
    pub fn layer_size_exec(&self, l: usize) -> (r: usize)
        ensures
            r == self.layer_size(l as int),
    {
        if l == 0 {
            self.input_count
        } else if l <= self.hidden_layer_count {
            self.hidden_nodes_per_layer
        } else if l == self.hidden_layer_count + 1 {
            self.output_count
        } else {
            0
        }
    }
}

} // verus!
