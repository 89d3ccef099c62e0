use micrograd::{Graph, Value};

fn b(x: f64) -> u64 {
    x.to_bits()
}

fn f(x: u64) -> f64 {
    f64::from_bits(x)
}

fn rel_close(actual: f64, expected: f64) -> bool {
    if expected == 0.0 {
        actual.abs() < 1e-6
    } else {
        ((actual - expected) / expected).abs() < 1e-6
    }
}

#[test]
fn should_calculate_with_values() {
    let mut g = Graph::new();
    let a = Value::constant(&mut g, b(2.0));
    let bv = Value::constant(&mut g, b(-3.0));
    let c = Value::constant(&mut g, b(10.0));
    let prod = a.mul(&mut g, bv);
    let d = prod.add(&mut g, c);
    let fv = Value::constant(&mut g, b(-2.0));
    let l = d.mul(&mut g, fv);
    assert_eq!(f(l.value(&g)), -8.0);
}

#[test]
fn should_calculate_tanh() {
    let mut g = Graph::new();
    let a = Value::constant(&mut g, b(2.0));
    let result = a.tanh(&mut g);
    assert!(rel_close(f(result.value(&g)), 0.96402758008));
}

#[test]
fn should_backpropagate() {
    let mut g = Graph::new();
    let x1 = Value::constant(&mut g, b(2.0));
    let x2 = Value::constant(&mut g, b(0.0));
    let w1 = Value::constant(&mut g, b(-3.0));
    let w2 = Value::constant(&mut g, b(1.0));
    let bias = Value::constant(&mut g, b(6.88137358701957432));
    let p1 = x1.mul(&mut g, w1);
    let p2 = x2.mul(&mut g, w2);
    let s = p1.add(&mut g, p2);
    let n = s.add(&mut g, bias);
    let o = n.tanh(&mut g);
    o.backward(&mut g);
    assert!(rel_close(f(n.gradient(&g)), 0.5));
    assert!(rel_close(f(w1.gradient(&g)), 1.0));
    assert!(rel_close(f(w2.gradient(&g)), 0.0));
}

#[test]
fn should_handle_same_node_twice() {
    let mut g = Graph::new();
    let a = Value::constant(&mut g, b(3.0));
    let bb = a.add(&mut g, a);
    bb.backward(&mut g);
    assert!(rel_close(f(a.gradient(&g)), 2.0));
}

#[test]
fn should_differentiate_sub() {
    let mut g = Graph::new();
    let a = Value::constant(&mut g, b(2.0));
    let bb = Value::constant(&mut g, b(3.0));
    let result = a.sub(&mut g, bb);
    result.backward(&mut g);
    assert!(rel_close(f(a.gradient(&g)), 1.0));
    assert!(rel_close(f(bb.gradient(&g)), -1.0));
}

#[test]
fn should_differentiate_pow() {
    let mut g = Graph::new();
    let a = Value::constant(&mut g, b(2.0));
    let result = a.pow(&mut g, b(3.0));
    result.backward(&mut g);
    assert!(rel_close(f(a.gradient(&g)), 12.0));
}

#[test]
fn forward_reference_values() {
    let mut g = Graph::new();
    let a = Value::constant(&mut g, b(2.0));
    let bv = Value::constant(&mut g, b(-3.0));
    let c = Value::constant(&mut g, b(10.0));
    let prod = a.mul(&mut g, bv);
    let d = prod.add(&mut g, c);
    let fv = Value::constant(&mut g, b(-2.0));
    let l = d.mul(&mut g, fv);
    assert_eq!(f(d.value(&g)), 4.0);
    assert_eq!(f(l.value(&g)), -8.0);
}

#[test]
fn pow_forward_exact() {
    let mut g = Graph::new();
    let a = Value::constant(&mut g, b(2.0));
    let r = a.pow(&mut g, b(3.0));
    assert_eq!(f(r.value(&g)), 8.0);
}

#[test]
fn pow_negative_base_integer_exponent() {
    let mut g = Graph::new();
    let a = Value::constant(&mut g, b(-2.0));
    let r = a.pow(&mut g, b(3.0));
    assert_eq!(f(r.value(&g)), -8.0);
    r.backward(&mut g);
    assert!(rel_close(f(a.gradient(&g)), 12.0));
}

#[test]
fn pow_special_cases() {
    let mut g = Graph::new();
    let nan = Value::constant(&mut g, b(f64::NAN));
    let one_any = nan.pow(&mut g, b(0.0));
    assert_eq!(f(one_any.value(&g)), 1.0);
    let one = Value::constant(&mut g, b(1.0));
    let one_nan = one.pow(&mut g, b(f64::NAN));
    assert_eq!(f(one_nan.value(&g)), 1.0);
    let zero = Value::constant(&mut g, b(0.0));
    let inv = zero.pow(&mut g, b(-1.0));
    assert_eq!(f(inv.value(&g)), f64::INFINITY);
    let neg = Value::constant(&mut g, b(-2.0));
    let root = neg.pow(&mut g, b(0.5));
    assert!(f(root.value(&g)).is_nan());
}

#[test]
fn tanh_negative_argument() {
    let mut g = Graph::new();
    let a = Value::constant(&mut g, b(-2.0));
    let r = a.tanh(&mut g);
    assert!(rel_close(f(r.value(&g)), -0.96402758008));
}

#[test]
fn tanh_saturates() {
    let mut g = Graph::new();
    let lo = Value::constant(&mut g, b(-500.0));
    let r1 = lo.tanh(&mut g);
    assert_eq!(f(r1.value(&g)), -1.0);
    // With the prescribed formulation (E - 1) / (E + 1), an overflowing
    // exponential yields inf/inf: not a number, as in a binary64 run of
    // the same formula.
    let hi = Value::constant(&mut g, b(500.0));
    let r2 = hi.tanh(&mut g);
    assert!(f(r2.value(&g)).is_nan());
}

#[test]
fn gradient_reads_zero_before_backward() {
    let mut g = Graph::new();
    let a = Value::constant(&mut g, b(5.0));
    let bb = Value::constant(&mut g, b(7.0));
    let s = a.add(&mut g, bb);
    assert_eq!(f(a.gradient(&g)), 0.0);
    assert_eq!(f(bb.gradient(&g)), 0.0);
    assert_eq!(f(s.gradient(&g)), 0.0);
}

#[test]
fn backward_leaves_untouched_nodes() {
    let mut g = Graph::new();
    let a = Value::constant(&mut g, b(2.0));
    let bb = Value::constant(&mut g, b(3.0));
    let s = a.add(&mut g, bb);
    let c = Value::constant(&mut g, b(4.0));
    let d = Value::constant(&mut g, b(5.0));
    let t = c.mul(&mut g, d);
    s.backward(&mut g);
    assert_eq!(f(a.gradient(&g)), 1.0);
    assert_eq!(f(c.gradient(&g)), 0.0);
    assert_eq!(f(d.gradient(&g)), 0.0);
    assert_eq!(f(t.gradient(&g)), 0.0);
}

#[test]
fn root_gradient_is_one() {
    let mut g = Graph::new();
    let a = Value::constant(&mut g, b(2.0));
    let bb = Value::constant(&mut g, b(3.0));
    let s = a.mul(&mut g, bb);
    s.backward(&mut g);
    assert_eq!(f(s.gradient(&g)), 1.0);
}

#[test]
fn constant_holds_its_value() {
    let mut g = Graph::new();
    let a = Value::constant(&mut g, b(3.5));
    assert_eq!(f(a.value(&g)), 3.5);
    let neg = Value::constant(&mut g, b(-0.0));
    assert_eq!(neg.value(&g), b(-0.0));
}

#[test]
fn gradient_accumulates_across_distinct_parents() {
    let mut g = Graph::new();
    let a = Value::constant(&mut g, b(2.0));
    let c = Value::constant(&mut g, b(5.0));
    let m = a.mul(&mut g, c);
    let d = Value::constant(&mut g, b(1.0));
    let n = a.add(&mut g, d);
    let r = m.add(&mut g, n);
    r.backward(&mut g);
    // d r / d a = c + 1: one contribution through each parent.
    assert_eq!(f(a.gradient(&g)), 6.0);
}

#[test]
fn diamond_graph_gradient() {
    // d = (a + a)^2 as a product of a shared node with itself:
    // d(d)/da = 8a. The backward pass finishes a node's gradient before
    // propagating it, so each path contributes exactly once.
    let mut g = Graph::new();
    let a = Value::constant(&mut g, b(3.0));
    let s = a.add(&mut g, a);
    let d = s.mul(&mut g, s);
    d.backward(&mut g);
    assert_eq!(f(s.gradient(&g)), 12.0);
    assert_eq!(f(a.gradient(&g)), 24.0);
}

#[test]
fn sub_forward_exact() {
    let mut g = Graph::new();
    let a = Value::constant(&mut g, b(2.0));
    let bb = Value::constant(&mut g, b(3.0));
    let r = a.sub(&mut g, bb);
    assert_eq!(f(r.value(&g)), -1.0);
}
