use tenso_rs::graph::{Graph, OperationRef};
use tenso_rs::matrix::Matrix;
use tenso_rs::optim::{OptimFuncSGD, Optimizer};
use tenso_rs::scalar::Scalar;

// A floating-point element type, provided by this (unverified) test crate:
// the library's contracts hold for whatever semantics these operations have.
#[derive(Clone, Copy, PartialEq, Debug)]
struct F32(f32);

impl Scalar for F32 {
    fn zero() -> F32 {
        F32(0.0)
    }
    fn one() -> F32 {
        F32(1.0)
    }
    fn neg_one() -> F32 {
        F32(-1.0)
    }
    fn add(self, b: F32) -> F32 {
        F32(self.0 + b.0)
    }
    fn sub(self, b: F32) -> F32 {
        F32(self.0 - b.0)
    }
    fn mul(self, b: F32) -> F32 {
        F32(self.0 * b.0)
    }
    fn divn(self, n: usize) -> F32 {
        F32(self.0 / (n as f32))
    }
    fn from_n(n: usize) -> F32 {
        F32(n as f32)
    }
    fn sigmoid(self) -> F32 {
        F32(1.0 / (1.0 + (-self.0).exp()))
    }
    fn is_pos(self) -> bool {
        self.0 > 0.0
    }
    fn is_neg(self) -> bool {
        self.0 < 0.0
    }
}

fn fmatrix(h: usize, w: usize, data: &[f32]) -> Matrix<F32> {
    let cells: Vec<F32> = data.iter().map(|v| F32(*v)).collect();
    Matrix::new_slice(h, w, &cells)
}

// Builds the loss graph over a 2x2 variable and returns its scalar output.
fn loss_of(build: &dyn Fn(&mut Graph<F32>, OperationRef) -> OperationRef, data: &[f32]) -> f32 {
    let mut g: Graph<F32> = Graph::new();
    let v = fmatrix(2, 2, data).as_variable(&mut g);
    let loss = build(&mut g, v);
    let out = loss.run(&mut g);
    out.get(0, 0).0
}

// Runs one backward pass and returns the analytic gradient of the 2x2
// variable.
fn grad_of(build: &dyn Fn(&mut Graph<F32>, OperationRef) -> OperationRef, data: &[f32]) -> Vec<f32> {
    let mut g: Graph<F32> = Graph::new();
    let v = fmatrix(2, 2, data).as_variable(&mut g);
    let loss = build(&mut g, v);
    loss.run(&mut g);
    loss.back(&mut g);
    let grad = g.get_grad(v);
    let mut out = Vec::new();
    for y in 0..2 {
        for x in 0..2 {
            out.push(grad.get(y, x).0);
        }
    }
    out
}

// Analytic backward deltas must match central finite differences within a
// small relative tolerance.
fn check_against_finite_differences(build: &dyn Fn(&mut Graph<F32>, OperationRef) -> OperationRef) {
    let base = [0.31f32, -0.72, 0.55, 0.11];
    let analytic = grad_of(build, &base);
    let eps = 1e-2f32;
    for cell in 0..4 {
        let mut up = base;
        up[cell] += eps;
        let mut down = base;
        down[cell] -= eps;
        let numeric = (loss_of(build, &up) - loss_of(build, &down)) / (2.0 * eps);
        let scale = 1.0f32.max(analytic[cell].abs());
        assert!(
            (analytic[cell] - numeric).abs() <= 5e-3 * scale,
            "cell {}: analytic {} vs numeric {}",
            cell,
            analytic[cell],
            numeric
        );
    }
}

#[test]
fn finite_differences_add() {
    check_against_finite_differences(&|g, v| {
        let c = g.constant(fmatrix(2, 2, &[0.4, -0.2, 0.9, 0.3]));
        v.add(g, c).sum(g)
    });
}

#[test]
fn finite_differences_mul() {
    check_against_finite_differences(&|g, v| {
        let c = g.constant(fmatrix(2, 2, &[0.4, -0.2, 0.9, 0.3]));
        v.mul(g, c).sum(g)
    });
}

#[test]
fn finite_differences_matmul() {
    check_against_finite_differences(&|g, v| {
        let c = g.constant(fmatrix(2, 2, &[0.4, -0.2, 0.9, 0.3]));
        v.mmul(g, c).sum(g)
    });
    check_against_finite_differences(&|g, v| {
        let c = g.constant(fmatrix(2, 2, &[0.4, -0.2, 0.9, 0.3]));
        c.mmul(g, v).sum(g)
    });
}

#[test]
fn finite_differences_pow() {
    check_against_finite_differences(&|g, v| v.pow(g, 3).sum(g));
}

#[test]
fn finite_differences_sigmoid() {
    check_against_finite_differences(&|g, v| v.sigmoid(g).sum(g));
}

#[test]
fn finite_differences_mean() {
    check_against_finite_differences(&|g, v| v.pow(g, 2).mean(g));
}

// A small deterministic generator standing in for random initialisation.
struct Lcg(u64);

impl Lcg {
    fn next_unit(&mut self) -> f32 {
        self.0 = self.0.wrapping_mul(6364136223846793005).wrapping_add(1442695040888963407);
        (((self.0 >> 33) as f32) / ((1u64 << 31) as f32)) - 0.5
    }

    fn matrix(&mut self, h: usize, w: usize) -> Matrix<F32> {
        let mut data = Vec::new();
        for _ in 0..(h * w) {
            data.push(self.next_unit());
        }
        fmatrix(h, w, &data)
    }
}

// Training the four-sample exclusive-or task with a 2-5-1 sigmoid network
// under stochastic gradient descent: the average loss must trend downward.
#[test]
fn xor_training_loss_decreases() {
    let samples: [([f32; 2], f32); 4] = [
        ([0.0, 0.0], 0.0),
        ([1.0, 0.0], 1.0),
        ([0.0, 1.0], 1.0),
        ([1.0, 1.0], 0.0),
    ];

    let mut rng = Lcg(11);
    let mut g: Graph<F32> = Graph::new();
    let w1 = rng.matrix(5, 2).as_variable(&mut g);
    let b1 = rng.matrix(5, 1).as_variable(&mut g);
    let w2 = rng.matrix(1, 5).as_variable(&mut g);
    let b2 = rng.matrix(1, 1).as_variable(&mut g);

    let x = tenso_rs::input::InputPlaceholder::with_value(&mut g, fmatrix(2, 1, &[0.0, 0.0]));
    let y_exp = tenso_rs::input::InputPlaceholder::with_value(&mut g, fmatrix(1, 1, &[0.0]));

    let hidden = w1.mmul(&mut g, x).add(&mut g, b1).sigmoid(&mut g);
    let out = w2.mmul(&mut g, hidden).add(&mut g, b2).sigmoid(&mut g);
    let loss = y_exp.sub(&mut g, out).pow(&mut g, 2).mean(&mut g);

    let mut optim = Optimizer::new(OptimFuncSGD::new(F32(0.1)));
    optim.add_variables(&g, &vec![w1, b1, w2, b2]);

    let epochs = 4000;
    let mut first_avg = 0.0f32;
    let mut last_avg = 0.0f32;
    for epoch in 0..epochs {
        let mut epoch_loss = 0.0f32;
        for (input, label) in samples.iter() {
            g.set_input(x, fmatrix(2, 1, input));
            g.set_input(y_exp, fmatrix(1, 1, &[*label]));
            let value = loss.run(&mut g);
            loss.back(&mut g);
            epoch_loss += value.get(0, 0).0;
        }
        optim.step(&mut g);
        let avg = epoch_loss / 4.0;
        if epoch == 0 {
            first_avg = avg;
        }
        if epoch == epochs - 1 {
            last_avg = avg;
        }
    }
    assert!(
        last_avg < first_avg && last_avg < 0.1,
        "first {} last {}",
        first_avg,
        last_avg
    );
}
