use scalargrad::engine::{Graph, Value};

fn bits(x: f32) -> u32 {
    x.to_bits()
}

fn val(b: u32) -> f32 {
    f32::from_bits(b)
}

#[test]
fn test_add() {
    let mut gr = Graph::new();
    let a = Value::new(&mut gr, bits(1.0));
    let b = Value::new(&mut gr, bits(2.0));
    let c = a.add(&mut gr, b);
    let d = c.add(&mut gr, b);
    d.backward(&mut gr);
    assert_eq!(val(b.get_grad(&gr)), 2.0);
}

#[test]
fn test_sub() {
    let mut gr = Graph::new();
    let a = Value::new(&mut gr, bits(1.0));
    let b = Value::new(&mut gr, bits(2.0));
    let c = a.sub(&mut gr, b);
    let d = c.sub(&mut gr, b);
    d.backward(&mut gr);
    assert_eq!(val(b.get_grad(&gr)), -2.0);
}

#[test]
fn test_mul() {
    let mut gr = Graph::new();
    let a = Value::new(&mut gr, bits(1.0));
    let b = Value::new(&mut gr, bits(2.0));
    let c = a.add(&mut gr, b);
    let d = c.mul(&mut gr, b);
    d.backward(&mut gr);
    assert_eq!(val(b.get_grad(&gr)), 5.0);
}

#[test]
fn test_mul_neg() {
    let mut gr = Graph::new();
    let a = Value::new(&mut gr, bits(1.0));
    let b = Value::new(&mut gr, bits(2.0));
    let c = a.sub(&mut gr, b);
    let d = c.mul(&mut gr, b);
    d.backward(&mut gr);
    assert_eq!(val(b.get_grad(&gr)), -3.0);
}

#[test]
fn test_pow() {
    let mut gr = Graph::new();
    let a = Value::new(&mut gr, bits(1.0));
    let b = Value::new(&mut gr, bits(2.0));
    let c = a.add(&mut gr, b);
    let d = c.pow(&mut gr, 2);
    d.backward(&mut gr);
    assert_eq!(val(b.get_grad(&gr)), 6.0);
}

#[test]
#[allow(non_snake_case)]
fn test_ReLU() {
    let mut gr = Graph::new();
    let a = Value::new(&mut gr, bits(1.0));
    let b = Value::new(&mut gr, bits(2.0));
    let b2 = b.mul_scalar(&mut gr, bits(2.0));
    let c = a.add(&mut gr, b2);
    let d = c.relu(&mut gr);
    let e = d.mul_scalar(&mut gr, bits(2.0));
    e.backward(&mut gr);
    assert_eq!(val(b.get_grad(&gr)), 4.0);
}

#[test]
#[allow(non_snake_case)]
fn test_ReLU_neg() {
    let mut gr = Graph::new();
    let a = Value::new(&mut gr, bits(1.0));
    let b = Value::new(&mut gr, bits(2.0));
    let b2 = b.mul_scalar(&mut gr, bits(2.0));
    let c = a.sub(&mut gr, b2);
    let d = c.relu(&mut gr);
    let e = d.mul_scalar(&mut gr, bits(2.0));
    e.backward(&mut gr);
    assert_eq!(val(b.get_grad(&gr)), 0.0);
}

#[test]
fn test_div() {
    let mut gr = Graph::new();
    let a = Value::new(&mut gr, bits(1.0));
    let b = Value::new(&mut gr, bits(2.0));
    let c = a.add(&mut gr, b);
    let d = c.div(&mut gr, b);
    d.backward(&mut gr);
    assert_eq!(val(b.get_grad(&gr)), -0.25);
}

#[test]
fn test_contrived() {
    let mut gr = Graph::new();
    let a = Value::new(&mut gr, bits(-4.0));
    let b = Value::new(&mut gr, bits(2.0));
    let mut c = a.add(&mut gr, b);
    let m1 = a.mul(&mut gr, b);
    let p3 = b.pow(&mut gr, 3);
    let mut d = m1.add(&mut gr, p3);
    // c = c + c + 1.0
    let t1 = c.add(&mut gr, c);
    c = t1.add_scalar(&mut gr, bits(1.0));
    // c = c + 1.0 + c + (-a)
    let t2 = c.add_scalar(&mut gr, bits(1.0));
    let t3 = t2.add(&mut gr, c);
    let na = a.neg(&mut gr);
    c = t3.add(&mut gr, na);
    // d = d + d * 2.0 + (b + a).relu()
    let dm2 = d.mul_scalar(&mut gr, bits(2.0));
    let s1 = d.add(&mut gr, dm2);
    let ba = b.add(&mut gr, a);
    let r1 = ba.relu(&mut gr);
    d = s1.add(&mut gr, r1);
    // d = d + d * 3.0 + (b - a).relu()
    let dm3 = d.mul_scalar(&mut gr, bits(3.0));
    let s2 = d.add(&mut gr, dm3);
    let bs = b.sub(&mut gr, a);
    let r2 = bs.relu(&mut gr);
    d = s2.add(&mut gr, r2);
    let e = c.sub(&mut gr, d);
    let f = e.pow(&mut gr, 2);
    // g = f / 2.0 + 10.0 / f
    let g1 = f.div_scalar(&mut gr, bits(2.0));
    let g2 = f.rdiv_scalar(&mut gr, bits(10.0));
    let g = g1.add(&mut gr, g2);
    assert_eq!(format!("{:.4}", val(g.get_data(&gr))), "24.7041");
    g.backward(&mut gr);
    assert_eq!(format!("{:.4}", val(a.get_grad(&gr))), "138.8338");
    assert_eq!(format!("{:.4}", val(b.get_grad(&gr))), "645.5773");
}

#[test]
fn test_forward_values_exact() {
    let mut gr = Graph::new();
    let a = Value::new(&mut gr, bits(1.5));
    let b = Value::new(&mut gr, bits(2.0));
    let s = a.add(&mut gr, b);
    assert_eq!(val(s.get_data(&gr)), 3.5);
    let m = a.mul(&mut gr, b);
    assert_eq!(val(m.get_data(&gr)), 3.0);
    let q = a.div(&mut gr, b);
    assert_eq!(val(q.get_data(&gr)), 0.75);
    let n = a.neg(&mut gr);
    assert_eq!(val(n.get_data(&gr)), -1.5);
    let d = a.sub(&mut gr, b);
    assert_eq!(val(d.get_data(&gr)), -0.5);
    let p = b.pow(&mut gr, -2);
    assert_eq!(val(p.get_data(&gr)), 0.25);
    let p4 = b.pow(&mut gr, 4);
    assert_eq!(val(p4.get_data(&gr)), 16.0);
    let p0 = b.pow(&mut gr, 0);
    assert_eq!(val(p0.get_data(&gr)), 1.0);
    // leaves start with gradient zero and the data given
    assert_eq!(val(a.get_data(&gr)), 1.5);
    assert_eq!(val(a.get_grad(&gr)), 0.0);
}

#[test]
fn test_relu_forward_matches_max() {
    let mut gr = Graph::new();
    let neg = Value::new(&mut gr, bits(-3.0));
    let pos = Value::new(&mut gr, bits(5.0));
    let zer = Value::new(&mut gr, bits(0.0));
    let rn = neg.relu(&mut gr);
    let rp = pos.relu(&mut gr);
    let rz = zer.relu(&mut gr);
    assert_eq!(val(rn.get_data(&gr)), (-3.0f32).max(0.0));
    assert_eq!(val(rp.get_data(&gr)), 5.0f32.max(0.0));
    assert_eq!(val(rz.get_data(&gr)), 0.0f32.max(0.0));
}

#[test]
fn test_relu_backward_zero_at_boundary() {
    let mut gr = Graph::new();
    let x = Value::new(&mut gr, bits(0.0));
    let y = x.relu(&mut gr);
    y.backward(&mut gr);
    // at x == 0 the rule scales by 0, not 1
    assert_eq!(val(x.get_grad(&gr)), 0.0);
    assert_eq!(val(y.get_grad(&gr)), 1.0);
}

#[test]
fn test_diamond_accumulates_both_paths() {
    let mut gr = Graph::new();
    let x = Value::new(&mut gr, bits(3.0));
    let y = x.add(&mut gr, x);
    let z = x.mul(&mut gr, x);
    let t = y.add(&mut gr, z);
    t.backward(&mut gr);
    // dt/dx = 2 (through the sum) + 3 + 3 (through the square)
    assert_eq!(val(x.get_grad(&gr)), 8.0);
}

#[test]
fn test_reset_matches_fresh_graph() {
    // backward, reset every reachable gradient, backward again: same
    // gradients as one backward pass on a freshly built identical graph
    let mut g1 = Graph::new();
    let a1 = Value::new(&mut g1, bits(1.0));
    let b1 = Value::new(&mut g1, bits(2.0));
    let c1 = a1.add(&mut g1, b1);
    let d1 = c1.mul(&mut g1, b1);
    d1.backward(&mut g1);
    a1.set_grad(&mut g1, bits(0.0));
    b1.set_grad(&mut g1, bits(0.0));
    c1.set_grad(&mut g1, bits(0.0));
    d1.set_grad(&mut g1, bits(0.0));
    d1.backward(&mut g1);

    let mut g2 = Graph::new();
    let a2 = Value::new(&mut g2, bits(1.0));
    let b2 = Value::new(&mut g2, bits(2.0));
    let c2 = a2.add(&mut g2, b2);
    let d2 = c2.mul(&mut g2, b2);
    d2.backward(&mut g2);

    assert_eq!(a1.get_grad(&g1), a2.get_grad(&g2));
    assert_eq!(b1.get_grad(&g1), b2.get_grad(&g2));
    assert_eq!(c1.get_grad(&g1), c2.get_grad(&g2));
    assert_eq!(d1.get_grad(&g1), d2.get_grad(&g2));
}

#[test]
fn test_grads_accumulate_without_reset() {
    // without a reset, a second backward pass doubles the leaf gradient
    let mut gr = Graph::new();
    let a = Value::new(&mut gr, bits(1.0));
    let b = Value::new(&mut gr, bits(2.0));
    let c = a.add(&mut gr, b);
    c.backward(&mut gr);
    assert_eq!(val(a.get_grad(&gr)), 1.0);
    c.backward(&mut gr);
    assert_eq!(val(a.get_grad(&gr)), 2.0);
}

#[test]
fn test_set_and_get_grad() {
    let mut gr = Graph::new();
    let a = Value::new(&mut gr, bits(7.0));
    assert_eq!(val(a.get_grad(&gr)), 0.0);
    a.set_grad(&mut gr, bits(1.25));
    assert_eq!(val(a.get_grad(&gr)), 1.25);
    a.set_grad(&mut gr, bits(0.0));
    assert_eq!(val(a.get_grad(&gr)), 0.0);
}

#[test]
fn test_gradient_matches_finite_difference() {
    // the chain rule, checked numerically: d/da of (a*b + relu(a + b^3))
    // at a = 1.5, b = 0.5 against a central difference
    fn f(a: f32, b: f32) -> f32 {
        let mut gr = Graph::new();
        let va = Value::new(&mut gr, a.to_bits());
        let vb = Value::new(&mut gr, b.to_bits());
        let m = va.mul(&mut gr, vb);
        let p = vb.pow(&mut gr, 3);
        let s = va.add(&mut gr, p);
        let r = s.relu(&mut gr);
        let out = m.add(&mut gr, r);
        f32::from_bits(out.get_data(&gr))
    }
    let mut gr = Graph::new();
    let va = Value::new(&mut gr, 1.5f32.to_bits());
    let vb = Value::new(&mut gr, 0.5f32.to_bits());
    let m = va.mul(&mut gr, vb);
    let p = vb.pow(&mut gr, 3);
    let s = va.add(&mut gr, p);
    let r = s.relu(&mut gr);
    let out = m.add(&mut gr, r);
    out.backward(&mut gr);
    let ga = f32::from_bits(va.get_grad(&gr));
    let gb = f32::from_bits(vb.get_grad(&gr));
    let h = 1e-2f32;
    let fda = (f(1.5 + h, 0.5) - f(1.5 - h, 0.5)) / (2.0 * h);
    let fdb = (f(1.5, 0.5 + h) - f(1.5, 0.5 - h)) / (2.0 * h);
    assert!((ga - fda).abs() < 1e-2, "{ga} vs {fda}");
    assert!((gb - fdb).abs() < 1e-2, "{gb} vs {fdb}");
    // and the exact values: d/da = b + 1 = 1.5, d/db = a + 3b^2 = 2.25
    assert_eq!(ga, 1.5);
    assert_eq!(gb, 2.25);
}

#[test]
fn test_pow_negative_exponent_gradient() {
    // d = b^-2 at b = 2: value 0.25, gradient -2 * 2^-3 = -0.25
    let mut gr = Graph::new();
    let b = Value::new(&mut gr, bits(2.0));
    let d = b.pow(&mut gr, -2);
    assert_eq!(val(d.get_data(&gr)), 0.25);
    d.backward(&mut gr);
    assert_eq!(val(b.get_grad(&gr)), -0.25);
}
