use micrograd::{Graph, Value};
use micrograd::layer::Layer;
use micrograd::mlp::MLP;
use micrograd::neuron::Neuron;
use rand::rngs::StdRng;
use rand::Rng;
use rand::SeedableRng;

fn b(x: f64) -> u64 {
    x.to_bits()
}

fn f(x: u64) -> f64 {
    f64::from_bits(x)
}

fn build_loss(g: &mut Graph, net: &MLP) -> Value {
    let xs: [[f64; 3]; 4] = [[2.0, 3.0, -1.0], [3.0, -1.0, 0.5], [0.5, 1.0, 1.0], [1.0, 1.0, 1.0]];
    let ys: [f64; 4] = [1.0, -1.0, 1.0, -1.0];
    let xss: Vec<Vec<u64>> = xs
        .iter()
        .map(|row| row.iter().map(|v| v.to_bits()).collect())
        .collect();
    let targets: Vec<u64> = ys.iter().map(|v| v.to_bits()).collect();
    net.find_loss(g, &xss, &targets)
}

// f(x) = tanh(x * w) + c * x^3 - w, with x feeding two separate paths.
fn expr(g: &mut Graph, x: f64, w: f64, c: f64) -> (Value, Value) {
    let xv = Value::constant(g, b(x));
    let wv = Value::constant(g, b(w));
    let cv = Value::constant(g, b(c));
    let p = xv.mul(g, wv);
    let t = p.tanh(g);
    let cube = xv.pow(g, b(3.0));
    let prod = cube.mul(g, cv);
    let s = t.add(g, prod);
    let d = s.sub(g, wv);
    (d, xv)
}

#[test]
fn neuron_parameters_sampled_in_unit_range() {
    let mut g = Graph::new();
    let mut rng = StdRng::seed_from_u64(11);
    let n = Neuron::new(&mut g, 5, &mut rng);
    for w in &n.weights {
        let v = f(w.value(&g));
        assert!(v.is_finite());
        assert!((-1.0..1.0).contains(&v));
    }
    let bv = f(n.bias.value(&g));
    assert!((-1.0..1.0).contains(&bv));
}

#[test]
fn layer_produces_one_output_per_neuron() {
    let mut g = Graph::new();
    let mut rng = StdRng::seed_from_u64(12);
    let lay = Layer::new(&mut g, 3, 4, &mut rng);
    let xv: Vec<Value> = [0.5, -0.25, 1.0].iter().map(|v| Value::constant(&mut g, b(*v))).collect();
    let outs = lay.calculate(&mut g, &xv);
    assert_eq!(outs.len(), 4);
    for o in &outs {
        let v = f(o.value(&g));
        assert!((-1.0..=1.0).contains(&v));
    }
}

#[test]
fn network_forward_determinism() {
    let mut g = Graph::new();
    let mut rng = StdRng::seed_from_u64(13);
    let net = MLP::new(&mut g, 3, &vec![4, 4, 1], &mut rng);
    let xv: Vec<Value> = [2.0, 3.0, -1.0].iter().map(|v| Value::constant(&mut g, b(*v))).collect();
    let first = net.predict(&mut g, &xv);
    let second = net.predict(&mut g, &xv);
    assert_eq!(first.len(), second.len());
    for k in 0..first.len() {
        assert_eq!(first[k].value(&g), second[k].value(&g));
    }
}

#[test]
fn step_decreases_toy_regression_loss() {
    let mut g = Graph::new();
    let mut rng = StdRng::seed_from_u64(7);
    let net = MLP::new(&mut g, 3, &vec![4, 4, 1], &mut rng);
    let mut losses: Vec<f64> = Vec::new();
    for _ in 0..4 {
        let loss = build_loss(&mut g, &net);
        losses.push(f(loss.value(&g)));
        loss.backward(&mut g);
        net.step(&mut g, b(0.005));
    }
    for k in 1..losses.len() {
        assert!(losses[k] < losses[k - 1], "loss did not decrease: {:?}", losses);
    }
}

#[test]
fn numeric_gradient_crosscheck() {
    let mut rng = StdRng::seed_from_u64(12345);
    let h = 1e-5;
    for _ in 0..5 {
        let x0 = 0.5 + (rng.next_u64() % 1024) as f64 / 1024.0;
        let w0 = -1.0 + (rng.next_u64() % 2048) as f64 / 1024.0;
        let c0 = -1.0 + (rng.next_u64() % 2048) as f64 / 1024.0;

        let mut g = Graph::new();
        let (out, x) = expr(&mut g, x0, w0, c0);
        out.backward(&mut g);
        let analytic = f(x.gradient(&g));

        let mut gp = Graph::new();
        let (outp, _) = expr(&mut gp, x0 + h, w0, c0);
        let fp = f(outp.value(&gp));
        let mut gm = Graph::new();
        let (outm, _) = expr(&mut gm, x0 - h, w0, c0);
        let fm = f(outm.value(&gm));
        let numeric = (fp - fm) / (2.0 * h);

        let tol = 1e-6 + 1e-4 * analytic.abs().max(numeric.abs());
        assert!(
            (analytic - numeric).abs() <= tol,
            "gradient mismatch: analytic {} numeric {}",
            analytic,
            numeric
        );
    }
}

#[test]
fn find_loss_matches_hand_built_expression() {
    let mut g = Graph::new();
    let mut rng = StdRng::seed_from_u64(31);
    let net = MLP::new(&mut g, 2, &vec![3, 1], &mut rng);
    let xs: [[f64; 2]; 2] = [[0.5, -1.0], [1.5, 2.0]];
    let ys: [f64; 2] = [1.0, -1.0];
    let xss: Vec<Vec<u64>> = xs
        .iter()
        .map(|row| row.iter().map(|v| v.to_bits()).collect())
        .collect();
    let targets: Vec<u64> = ys.iter().map(|v| v.to_bits()).collect();
    let loss = net.find_loss(&mut g, &xss, &targets);

    let mut acc = Value::constant(&mut g, b(0.0));
    for i in 0..2 {
        let xv: Vec<Value> = xs[i].iter().map(|v| Value::constant(&mut g, v.to_bits())).collect();
        let outs = net.predict(&mut g, &xv);
        let yv = Value::constant(&mut g, b(ys[i]));
        let d = outs[0].sub(&mut g, yv);
        let sq = d.pow(&mut g, b(2.0));
        acc = acc.add(&mut g, sq);
    }
    assert_eq!(loss.value(&g), acc.value(&g));
}

#[test]
fn network_step_changes_parameters() {
    let mut g = Graph::new();
    let mut rng = StdRng::seed_from_u64(21);
    let net = MLP::new(&mut g, 3, &vec![2, 1], &mut rng);
    let mut before: Vec<u64> = Vec::new();
    for lay in &net.layers {
        for n in &lay.neurons {
            for w in &n.weights {
                before.push(w.value(&g));
            }
            before.push(n.bias.value(&g));
        }
    }
    let loss = build_loss(&mut g, &net);
    loss.backward(&mut g);
    net.step(&mut g, b(0.01));
    let mut after: Vec<u64> = Vec::new();
    for lay in &net.layers {
        for n in &lay.neurons {
            for w in &n.weights {
                after.push(w.value(&g));
            }
            after.push(n.bias.value(&g));
        }
    }
    assert_eq!(before.len(), after.len());
    assert!(before.iter().zip(after.iter()).any(|(x, y)| x != y));
}
