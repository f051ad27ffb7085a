use rand::rngs::StdRng;
use rand::SeedableRng;
use scalargrad::engine::{Graph, Value};
use scalargrad::nn::{Layer, Neuron, MLP};

fn bits(x: f32) -> u32 {
    x.to_bits()
}

fn val(b: u32) -> f32 {
    f32::from_bits(b)
}

#[test]
fn test_neuron() {
    let mut gr = Graph::new();
    let mut rng = StdRng::seed_from_u64(7);
    let a = Neuron::new(&mut gr, &mut rng, 10, true);
    assert!(a.w.len() == 10);
    assert!(val(a.b.get_data(&gr)) == 0.0);
    a.zero_grad(&mut gr);
    assert!(val(a.w[0].get_grad(&gr)) == 0.0);
}

#[test]
fn test_layer() {
    let mut gr = Graph::new();
    let mut rng = StdRng::seed_from_u64(7);
    let a = Layer::new(&mut gr, &mut rng, 8, 2, false);
    assert!(a.neurons.len() == 2);
    assert!(val(a.neurons.first().unwrap().b.get_data(&gr)) == 0.0);
    a.zero_grad(&mut gr);
    assert!(val(a.neurons.first().unwrap().w[0].get_grad(&gr)) == 0.0);
}

#[test]
#[allow(non_snake_case)]
fn test_MLP() {
    let mut gr = Graph::new();
    let mut rng = StdRng::seed_from_u64(7);
    let a = MLP::new(&mut gr, &mut rng, 8, &vec![4, 2]);
    assert!(a.sz.len() == 3);
    assert!(a.layers.first().unwrap().neurons.len() == 4);
    a.zero_grad(&mut gr);
    assert!(
        val(a.layers.first().unwrap().neurons.first().unwrap().w[0].get_grad(&gr)) == 0.0
    );
}

#[test]
fn test_mlp_parameter_count_and_reset() {
    // a network over sizes [8, 4, 2] owns (8*4+4) + (4*2+2) parameters
    let mut gr = Graph::new();
    let mut rng = StdRng::seed_from_u64(11);
    let m = MLP::new(&mut gr, &mut rng, 8, &vec![4, 2]);
    let ps = m.parameters();
    assert_eq!(ps.len(), 46);
    for p in ps.iter() {
        p.set_grad(&mut gr, bits(3.0));
    }
    m.zero_grad(&mut gr);
    for p in ps.iter() {
        assert_eq!(val(p.get_grad(&gr)), 0.0);
    }
}

#[test]
fn test_weights_lie_in_unit_interval() {
    let mut gr = Graph::new();
    let mut rng = StdRng::seed_from_u64(3);
    let n = Neuron::new(&mut gr, &mut rng, 64, false);
    for w in n.w.iter() {
        let x = val(w.get_data(&gr));
        assert!((-1.0..=1.0).contains(&x));
    }
}

#[test]
fn test_neuron_evaluates_dot_plus_bias() {
    // fixed inputs; weights are random, so check against a recomputation
    // from the stored weight values
    let mut gr = Graph::new();
    let mut rng = StdRng::seed_from_u64(5);
    let n = Neuron::new(&mut gr, &mut rng, 3, false);
    let xs = [1.5f32, -2.0, 0.5];
    let mut handles: Vec<Value> = Vec::new();
    for x in xs.iter() {
        handles.push(Value::new(&mut gr, bits(*x)));
    }
    let out = n.call(&mut gr, &handles);
    let mut expect = 0.0f32;
    for i in 0..3 {
        expect = expect + val(n.w[i].get_data(&gr)) * xs[i];
    }
    expect = expect + val(n.b.get_data(&gr));
    assert_eq!(val(out.get_data(&gr)), expect);
}

#[test]
fn test_relu_neuron_clamps() {
    // with every input zero the pre-activation equals the bias (zero), and
    // a rectifying neuron outputs zero
    let mut gr = Graph::new();
    let mut rng = StdRng::seed_from_u64(9);
    let n = Neuron::new(&mut gr, &mut rng, 2, true);
    let x0 = Value::new(&mut gr, bits(0.0));
    let x1 = Value::new(&mut gr, bits(0.0));
    let out = n.call(&mut gr, &vec![x0, x1]);
    assert_eq!(val(out.get_data(&gr)), 0.0);
}

#[test]
fn test_mlp_forward_and_backward() {
    // an end-to-end pass: evaluate, take the first output as loss,
    // backward; every parameter gradient is finite and the terminal's
    // gradient is one
    let mut gr = Graph::new();
    let mut rng = StdRng::seed_from_u64(13);
    let m = MLP::new(&mut gr, &mut rng, 3, &vec![4, 1]);
    let xs = [0.5f32, -1.0, 2.0];
    let mut handles: Vec<Value> = Vec::new();
    for x in xs.iter() {
        handles.push(Value::new(&mut gr, bits(*x)));
    }
    let out = m.call(&mut gr, &handles);
    assert_eq!(out.len(), 1);
    let loss = out[0];
    loss.backward(&mut gr);
    assert_eq!(val(loss.get_grad(&gr)), 1.0);
    for p in m.parameters().iter() {
        assert!(val(p.get_grad(&gr)).is_finite());
    }
}
