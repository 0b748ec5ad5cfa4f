use tenso_rs::graph::Graph;
use tenso_rs::input::InputPlaceholder;
use tenso_rs::matrix::Matrix;

// A small deterministic generator standing in for random test data.
fn pseudo_random_values(seed: u64, count: usize) -> Vec<i64> {
    let mut state = seed;
    let mut out = Vec::with_capacity(count);
    for _ in 0..count {
        state = state.wrapping_mul(6364136223846793005).wrapping_add(1442695040888963407);
        out.push(((state >> 33) as i64) - 1073741824);
    }
    out
}

#[test]
fn add_run() {
    let height = 3;
    let width = 5;

    let data0 = pseudo_random_values(7, height * width);
    let data1 = pseudo_random_values(99, height * width);

    let mut g: Graph<i64> = Graph::new();
    let placeholder0 = InputPlaceholder::with_value(&mut g, Matrix::new_slice(height, width, &data0));
    let placeholder1 = InputPlaceholder::with_value(&mut g, Matrix::new_slice(height, width, &data1));

    let result_op = placeholder0.add(&mut g, placeholder1);
    let result = result_op.run(&mut g);

    for y in 0..height {
        for x in 0..width {
            assert_eq!(data0[y * width + x] + data1[y * width + x], result.get(y, x));
        }
    }
}

#[test]
fn back() {
    let width = 3;
    let height = 5;

    let data0 = pseudo_random_values(21, height * width);
    let data1 = pseudo_random_values(1234, height * width);

    let mut g: Graph<i64> = Graph::new();
    let var0 = Matrix::new_slice(height, width, &data0).as_variable(&mut g);
    let var1 = Matrix::new_slice(height, width, &data1).as_variable(&mut g);

    let result_op = var0.add(&mut g, var1).sum(&mut g);
    result_op.run(&mut g);
    result_op.back(&mut g);

    for (var, _) in [(var0, 0), (var1, 1)] {
        let grad = g.get_grad(var);
        assert_eq!(grad.height(), height);
        assert_eq!(grad.width(), width);
        for y in 0..height {
            for x in 0..width {
                assert_eq!(1, grad.get(y, x));
            }
        }
    }
}
