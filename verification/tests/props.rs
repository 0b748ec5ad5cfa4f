use tenso_rs::graph::Graph;
use tenso_rs::matrix::Matrix;
use tenso_rs::optim::{OptimFuncSGD, Optimizer};

fn matrix_of(h: usize, w: usize, data: &[i64]) -> Matrix<i64> {
    Matrix::new_slice(h, w, &data.to_vec())
}

fn assert_cells(m: &Matrix<i64>, h: usize, w: usize, expected: &[i64]) {
    assert_eq!(m.height(), h);
    assert_eq!(m.width(), w);
    for y in 0..h {
        for x in 0..w {
            assert_eq!(expected[y * w + x], m.get(y, x));
        }
    }
}

// Transposing twice gives back the original, across tile boundaries.
#[test]
fn transpose_involution() {
    let h = 17;
    let w = 21;
    let mut data = Vec::new();
    for i in 0..(h * w) {
        data.push((i as i64) * 3 - 100);
    }
    let m = Matrix::new_slice(h, w, &data);
    let t = m.transpose();
    assert_eq!(t.height(), w);
    assert_eq!(t.width(), h);
    for y in 0..h {
        for x in 0..w {
            assert_eq!(m.get(y, x), t.get(x, y));
        }
    }
    let tt = t.transpose();
    assert_cells(&tt, h, w, &data);
}

// The transpose of a product is the reversed product of the transposes.
#[test]
fn matmul_transpose() {
    let a = matrix_of(3, 2, &[1, -2, 3, 4, -5, 6]);
    let b = matrix_of(2, 4, &[2, 0, 1, -1, 3, 5, -2, 4]);
    let ab_t = a.matmul(&b).transpose();
    let bt_at = b.transpose().matmul(&a.transpose());
    assert_eq!(ab_t.height(), 4);
    assert_eq!(ab_t.width(), 3);
    for y in 0..4 {
        for x in 0..3 {
            assert_eq!(ab_t.get(y, x), bt_at.get(y, x));
        }
    }
}

// The reduction sums every logical cell even when the dimensions are not
// multiples of the tile width, so edge-tile padding is excluded.
#[test]
fn sum_skips_padding() {
    let h = 17;
    let w = 17;
    let mut data = Vec::new();
    let mut total: i64 = 0;
    for i in 0..(h * w) {
        let v = (i as i64 % 13) - 6;
        total += v;
        data.push(v);
    }
    let m = Matrix::new_slice(h, w, &data);
    let s = m.sum();
    assert_cells(&s, 1, 1, &[total]);
}

// Multiplying by the identity matrix returns the left operand.
#[test]
fn matmul_identity() {
    let mut g: Graph<i64> = Graph::new();
    let a = matrix_of(2, 2, &[1, 2, 3, 4]).as_variable(&mut g);
    let b = matrix_of(2, 2, &[1, 0, 0, 1]).as_variable(&mut g);
    let prod = a.mmul(&mut g, b);
    let result = prod.run(&mut g);
    assert_cells(&result, 2, 2, &[1, 2, 3, 4]);
}

// The scalar reduction of a small matrix.
#[test]
fn sum_small() {
    let mut g: Graph<i64> = Graph::new();
    let a = matrix_of(2, 2, &[0, 1, 2, 3]).as_variable(&mut g);
    let s = a.sum(&mut g);
    let result = s.run(&mut g);
    assert_cells(&result, 1, 1, &[6]);
}

// Two backward passes without an optimizer step sum their deltas.
#[test]
fn gradients_accumulate() {
    let mut g: Graph<i64> = Graph::new();
    let v = matrix_of(2, 2, &[5, 6, 7, 8]).as_variable(&mut g);
    let s = v.times(&mut g, 3).sum(&mut g);

    s.run(&mut g);
    s.back(&mut g);
    let after_one = g.get_grad(v);
    assert_cells(&after_one, 2, 2, &[3, 3, 3, 3]);

    s.run(&mut g);
    s.back(&mut g);
    let after_two = g.get_grad(v);
    assert_cells(&after_two, 2, 2, &[6, 6, 6, 6]);
}

// One optimizer step applies value - lr * grad and zeroes the gradient;
// a repeated step without a new backward pass changes nothing.
#[test]
fn sgd_step_and_idempotence() {
    let mut g: Graph<i64> = Graph::new();
    let v = matrix_of(2, 2, &[10, 20, 30, 40]).as_variable(&mut g);
    let s = v.sum(&mut g);
    s.run(&mut g);
    s.back(&mut g);
    let grad = g.get_grad(v);
    assert_cells(&grad, 2, 2, &[1, 1, 1, 1]);

    let mut optim = Optimizer::new(OptimFuncSGD::new(2));
    optim.add_variables(&g, &vec![v, s, v]);
    optim.step(&mut g);

    let stepped = g.get_value(v);
    assert_cells(&stepped, 2, 2, &[8, 18, 28, 38]);
    let cleared = g.get_grad(v);
    assert_cells(&cleared, 2, 2, &[0, 0, 0, 0]);

    optim.step(&mut g);
    let again = g.get_value(v);
    assert_cells(&again, 2, 2, &[8, 18, 28, 38]);
}

// A backward pass whose path reaches only a constant leaf completes and
// mutates nothing.
#[test]
fn back_through_constant_only() {
    let mut g: Graph<i64> = Graph::new();
    let c = g.constant(matrix_of(2, 3, &[1, 2, 3, 4, 5, 6]));
    let s = c.sum(&mut g);
    s.run(&mut g);
    s.back(&mut g);
    let value = g.get_value(c);
    assert_cells(&value, 2, 3, &[1, 2, 3, 4, 5, 6]);
    assert!(!g.is_variable(c));
}

// A delta reaching one variable along two paths is summed, not
// overwritten.
#[test]
fn diamond_paths_sum() {
    let mut g: Graph<i64> = Graph::new();
    let v = matrix_of(1, 1, &[4]).as_variable(&mut g);
    // v * v: both inputs are the same node.
    let sq = v.mul(&mut g, v);
    let s = sq.sum(&mut g);
    s.run(&mut g);
    s.back(&mut g);
    // d(v*v)/dv = v + v = 8.
    let grad = g.get_grad(v);
    assert_cells(&grad, 1, 1, &[8]);
}

// The remaining kernels on integer scalars, forward and backward.
#[test]
fn kernel_catalogue() {
    let mut g: Graph<i64> = Graph::new();
    let v = matrix_of(2, 2, &[-2, -1, 1, 2]).as_variable(&mut g);

    let scaled = v.times(&mut g, 5);
    assert_cells(&scaled.run(&mut g), 2, 2, &[-10, -5, 5, 10]);

    let cubed = v.pow(&mut g, 3);
    assert_cells(&cubed.run(&mut g), 2, 2, &[-8, -1, 1, 8]);

    let rectified = v.relu(&mut g);
    assert_cells(&rectified.run(&mut g), 2, 2, &[0, 0, 1, 2]);

    let leaky = v.leaky_relu(&mut g, 10);
    assert_cells(&leaky.run(&mut g), 2, 2, &[-20, -10, 1, 2]);

    let stepfn = v.sigmoid(&mut g);
    assert_cells(&stepfn.run(&mut g), 2, 2, &[0, 0, 1, 1]);

    let mean = v.mean(&mut g);
    assert_cells(&mean.run(&mut g), 1, 1, &[0]);

    let mut g2: Graph<i64> = Graph::new();
    let w = matrix_of(1, 2, &[10, 20]).as_variable(&mut g2);
    let m2 = w.mean(&mut g2);
    assert_cells(&m2.run(&mut g2), 1, 1, &[15]);

    // backward through pow: d(v^3) = 3 v^2 * delta.
    let total = cubed.sum(&mut g);
    total.run(&mut g);
    total.back(&mut g);
    let grad = g.get_grad(v);
    assert_cells(&grad, 2, 2, &[12, 3, 3, 12]);
}

// Elementwise binary kernels, and subtraction built from scale-and-add.
#[test]
fn binary_catalogue() {
    let mut g: Graph<i64> = Graph::new();
    let a = matrix_of(2, 2, &[9, 7, 5, 3]).as_variable(&mut g);
    let b = matrix_of(2, 2, &[1, 2, 3, 4]).as_variable(&mut g);

    let summed = a.add(&mut g, b);
    assert_cells(&summed.run(&mut g), 2, 2, &[10, 9, 8, 7]);

    let diff = a.sub(&mut g, b);
    assert_cells(&diff.run(&mut g), 2, 2, &[8, 5, 2, -1]);

    let prod = a.mul(&mut g, b);
    assert_cells(&prod.run(&mut g), 2, 2, &[9, 14, 15, 12]);

    // backward through elementwise mul: each side receives delta * other.
    let total = prod.sum(&mut g);
    total.run(&mut g);
    total.back(&mut g);
    assert_cells(&g.get_grad(a), 2, 2, &[1, 2, 3, 4]);
    assert_cells(&g.get_grad(b), 2, 2, &[9, 7, 5, 3]);
}

// Swapping a placeholder's matrix feeds new data through a static graph.
#[test]
fn placeholder_swap() {
    let mut g: Graph<i64> = Graph::new();
    let p = tenso_rs::input::InputPlaceholder::with_value(&mut g, matrix_of(1, 2, &[1, 2]));
    let s = p.sum(&mut g);
    assert_cells(&s.run(&mut g), 1, 1, &[3]);

    g.set_input(p, matrix_of(1, 2, &[10, 30]));
    assert_cells(&s.run(&mut g), 1, 1, &[40]);
}

// Backward through transpose and mean.
#[test]
fn transpose_mean_backward() {
    let mut g: Graph<i64> = Graph::new();
    let v = matrix_of(2, 2, &[8, 12, 16, 20]).as_variable(&mut g);
    let t = v.transpose(&mut g);
    let m = t.mean(&mut g);
    m.run(&mut g);
    m.back(&mut g);
    // mean backward broadcasts 1 / 4 = 0 in integer division.
    assert_cells(&g.get_grad(v), 2, 2, &[0, 0, 0, 0]);

    let mut g2: Graph<i64> = Graph::new();
    let v2 = matrix_of(1, 2, &[8, 12]).as_variable(&mut g2);
    let m2 = v2.sum(&mut g2);
    m2.run(&mut g2);
    m2.back(&mut g2);
    g2.back_delta(m2, matrix_of(1, 1, &[10]));
    // sum backward broadcasts the delta; two passes accumulate 1 + 10.
    assert_cells(&g2.get_grad(v2), 1, 2, &[11, 11]);
}
