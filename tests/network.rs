use perceptron::network::{ConfigError, Network};
use perceptron::shape::{param_count, Shape};

fn mul_add(acc: f32, w: f32, a: f32) -> f32 {
    acc + w * a
}

fn identity(s: f32) -> f32 {
    s
}

fn relu(s: f32) -> f32 {
    if s > 0.0 {
        s
    } else {
        0.0
    }
}

/// A deterministic stand-in for a random source: values in [-1, 1).
fn params_for(i: u32, h: u32, n: u32, o: u32, seed: u32) -> Vec<f32> {
    let count = param_count(i, h, n, o).unwrap();
    let mut state: u32 = seed;
    let mut out = Vec::new();
    for _ in 0..count {
        state = state.wrapping_mul(1_103_515_245).wrapping_add(12_345);
        let unit = ((state >> 8) % 2000) as f32 / 1000.0;
        out.push(unit - 1.0);
    }
    out
}

fn build(i: u32, h: u32, n: u32, o: u32, params: &Vec<f32>) -> Result<Network<f32>, ConfigError> {
    Network::new(i, h, n, o, params, 0.0, mul_add, identity)
}

#[test]
fn param_count_of_small_network() {
    // 2 input biases, 2 hidden nodes of 1 + 2, 1 output node of 1 + 2
    assert_eq!(param_count(2, 1, 2, 1), Some(11));
    // 1 + (1 + 1) * 3 hidden layers of one node + (1 + 1) output
    assert_eq!(param_count(1, 3, 1, 1), Some(9));
    assert_eq!(param_count(8, 2, 2, 2), Some(8 + 2 * 9 + 2 * 3 + 2 * 3));
}

#[test]
fn param_count_that_overflows_is_none() {
    assert_eq!(param_count(u32::MAX, u32::MAX, u32::MAX, u32::MAX), None);
}

#[test]
fn new_rejects_each_zero_dimension() {
    let empty: Vec<f32> = Vec::new();
    let dims = [
        (0, 2, 2, 2),
        (2, 0, 2, 2),
        (2, 2, 0, 2),
        (2, 2, 2, 0),
        (0, 0, 0, 0),
        (0, 1, 0, 1),
    ];
    for (i, h, n, o) in dims {
        let r = build(i, h, n, o, &empty);
        assert!(matches!(r, Err(ConfigError::InvalidConfiguration)));
    }
}

#[test]
fn new_wires_each_layer_to_the_one_before() {
    for (i, h, n, o) in [(1, 1, 1, 1), (3, 2, 4, 2), (2, 4, 3, 5), (8, 2, 2, 2)] {
        let params = params_for(i, h, n, o, 7);
        let net = build(i, h, n, o, &params).unwrap();
        assert_eq!(net.layer_count(), h as usize + 2);
        assert_eq!(net.node_count(), (i + h * n + o) as usize);
        for l in 0..net.layer_count() {
            let expected_size = if l == 0 {
                i
            } else if l <= h as usize {
                n
            } else {
                o
            };
            assert_eq!(net.layer_size(l), expected_size as usize);
            for p in 0..net.layer_size(l) {
                let node = net.node(net.layer_start(l) + p);
                if l == 0 {
                    assert_eq!(node.connections.len(), 0);
                } else {
                    assert_eq!(node.connections.len(), net.layer_size(l - 1));
                    for (c, conn) in node.connections.iter().enumerate() {
                        assert_eq!(conn.source, net.layer_start(l - 1) + c);
                    }
                }
            }
        }
    }
}

#[test]
fn deep_hidden_layers_are_chained() {
    let params = params_for(1, 3, 1, 1, 3);
    let net = build(1, 3, 1, 1, &params).unwrap();
    // layers: input 0, hidden 1..=3, output 4; one node each
    let third_hidden = net.node(net.layer_start(3));
    assert_eq!(third_hidden.connections.len(), 1);
    assert_eq!(third_hidden.connections[0].source, net.layer_start(2));
    let second_hidden = net.node(net.layer_start(2));
    assert_eq!(second_hidden.connections.len(), 1);
    assert_eq!(second_hidden.connections[0].source, net.layer_start(1));
}

#[test]
fn forced_ones_give_three_and_seven() {
    let params = vec![1.0f32; param_count(2, 1, 2, 1).unwrap()];
    let mut net = build(2, 1, 2, 1, &params).unwrap();
    net.set_input_activations(&vec![1.0, 1.0]).unwrap();
    net.forward(mul_add, identity);
    assert_eq!(net.weighted_sum(2), 3.0);
    assert_eq!(net.weighted_sum(3), 3.0);
    assert_eq!(net.weighted_sum(4), 7.0);
    assert_eq!(net.output_activations(), vec![7.0]);
}

#[test]
fn construction_runs_a_forward_pass() {
    // inputs start at 0: every hidden sum is its bias, the output sums its terms
    let params = vec![0.5f32; param_count(2, 1, 2, 1).unwrap()];
    let net = build(2, 1, 2, 1, &params).unwrap();
    assert_eq!(net.weighted_sum(0), 0.0);
    assert_eq!(net.activation(1), 0.0);
    assert_eq!(net.weighted_sum(2), 0.5);
    assert_eq!(net.weighted_sum(3), 0.5);
    assert_eq!(net.weighted_sum(4), 0.5 + 0.5 * 0.5 + 0.5 * 0.5);
}

#[test]
fn set_input_activations_rejects_wrong_count() {
    let params = params_for(3, 1, 2, 1, 11);
    let mut net = build(3, 1, 2, 1, &params).unwrap();
    net.set_input_activations(&vec![0.25, -0.5, 0.75]).unwrap();
    for wrong in [vec![], vec![1.0, 2.0], vec![1.0, 2.0, 3.0, 4.0]] {
        let r = net.set_input_activations(&wrong);
        assert_eq!(r, Err(ConfigError::InvalidInputSize));
        assert_eq!(net.activation(0), 0.25);
        assert_eq!(net.activation(1), -0.5);
        assert_eq!(net.activation(2), 0.75);
    }
}

#[test]
fn set_input_activations_touches_only_inputs() {
    let params = params_for(2, 1, 2, 1, 5);
    let mut net = build(2, 1, 2, 1, &params).unwrap();
    let hidden_before = (net.weighted_sum(2), net.activation(2));
    net.set_input_activations(&vec![0.5, -1.0]).unwrap();
    assert_eq!(net.activation(0), 0.5);
    assert_eq!(net.activation(1), -1.0);
    assert_eq!(net.weighted_sum(0), 0.0);
    assert_eq!((net.weighted_sum(2), net.activation(2)), hidden_before);
}

#[test]
fn parameters_follow_the_layout() {
    let count = param_count(2, 1, 2, 1).unwrap();
    let params: Vec<f32> = (0..count).map(|x| x as f32).collect();
    let net = build(2, 1, 2, 1, &params).unwrap();
    // input biases 0, 1; hidden node 2: bias 2, weights 3, 4; node 3: 5, 6, 7;
    // output node 4: bias 8, weights 9, 10
    assert_eq!(net.node(0).bias, 0.0);
    assert_eq!(net.node(1).bias, 1.0);
    assert_eq!(net.node(2).bias, 2.0);
    assert_eq!(net.node(2).connections[1].weight, 4.0);
    assert_eq!(net.node(3).bias, 5.0);
    assert_eq!(net.node(3).connections[0].weight, 6.0);
    assert_eq!(net.node(4).bias, 8.0);
    assert_eq!(net.node(4).connections[0].weight, 9.0);
    assert_eq!(net.node(4).connections[1].weight, 10.0);
}

#[test]
fn forward_recomputes_every_weighted_sum() {
    let params = params_for(3, 3, 4, 2, 42);
    let mut net = Network::new(3, 3, 4, 2, &params, 0.0, mul_add, relu).unwrap();
    net.set_input_activations(&vec![0.3, -0.7, 0.9]).unwrap();
    net.forward(mul_add, relu);
    let inputs = net.shape().input_count;
    for k in inputs..net.node_count() {
        let node = net.node(k);
        let mut expected = node.bias;
        for conn in node.connections.iter() {
            expected = mul_add(expected, conn.weight, net.activation(conn.source));
        }
        assert_eq!(net.weighted_sum(k), expected);
        assert_eq!(net.activation(k), relu(expected));
    }
    assert_eq!(net.activation(0), 0.3);
}

#[test]
fn same_params_same_network() {
    let a_params = params_for(4, 2, 3, 2, 99);
    let b_params = params_for(4, 2, 3, 2, 99);
    let a = build(4, 2, 3, 2, &a_params).unwrap();
    let b = build(4, 2, 3, 2, &b_params).unwrap();
    assert_eq!(a.node_count(), b.node_count());
    for k in 0..a.node_count() {
        assert_eq!(a.node(k).bias, b.node(k).bias);
        assert_eq!(a.node(k).connections, b.node(k).connections);
        assert_eq!(a.weighted_sum(k), b.weighted_sum(k));
    }
}

#[test]
fn shape_reports_dimensions() {
    let params = params_for(5, 2, 3, 4, 1);
    let net = build(5, 2, 3, 4, &params).unwrap();
    assert_eq!(
        net.shape(),
        Shape { input_count: 5, hidden_layer_count: 2, hidden_nodes_per_layer: 3, output_count: 4 }
    );
    assert_eq!(net.layer_start(net.layer_count()), net.node_count());
    assert_eq!(net.output_activations().len(), 4);
}

