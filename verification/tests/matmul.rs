use tenso_rs::graph::Graph;
use tenso_rs::input::InputPlaceholder;
use tenso_rs::matrix::Matrix;

fn assert_cells(m: &Matrix<i64>, h: usize, w: usize, expected: &[i64]) {
    assert_eq!(m.height(), h);
    assert_eq!(m.width(), w);
    for y in 0..h {
        for x in 0..w {
            assert_eq!(expected[y * w + x], m.get(y, x));
        }
    }
}

#[test]
fn matmul_run() {
    let mut g: Graph<i64> = Graph::new();

    let mat0 = Matrix::new_slice(3, 2, &vec![0, 1, 2, 3, 4, 5]);
    let placeholder0 = InputPlaceholder::with_value(&mut g, mat0);

    let mat1 = Matrix::new_slice(2, 2, &vec![6, 7, 8, 9]);
    let placeholder1 = InputPlaceholder::with_value(&mut g, mat1);

    let result_op = placeholder0.mmul(&mut g, placeholder1);
    let result = result_op.run(&mut g);

    assert_cells(&result, 3, 2, &[8, 9, 36, 41, 64, 73]);
}

#[test]
fn back0() {
    let mut g: Graph<i64> = Graph::new();

    let mat0 = Matrix::new_slice(3, 2, &vec![0, 1, 2, 3, 4, 5]);
    let var0 = mat0.as_variable(&mut g);

    let mat1 = Matrix::new_slice(2, 2, &vec![6, 7, 8, 9]);
    let var1 = mat1.as_variable(&mut g);

    let result_op = var0.mmul(&mut g, var1).sum(&mut g);

    result_op.run(&mut g);
    result_op.back(&mut g);

    let grad0 = g.get_grad(var0);
    assert_cells(&grad0, 3, 2, &[13, 17, 13, 17, 13, 17]);

    let grad1 = g.get_grad(var1);
    assert_cells(&grad1, 2, 2, &[6, 6, 9, 9]);
}

#[test]
fn back1() {
    let mut g: Graph<i64> = Graph::new();

    let mat0 = Matrix::new_slice(3, 3, &vec![0, 1, 2, 3, 4, 5, 6, 7, 8]);
    let var0 = mat0.as_variable(&mut g);

    let mat1 = Matrix::new_slice(3, 2, &vec![6, 7, 8, 9, 10, 11]);
    let var1 = mat1.as_variable(&mut g);

    let result_op = var0.mmul(&mut g, var1).sum(&mut g);

    result_op.run(&mut g);
    result_op.back(&mut g);

    let grad0 = g.get_grad(var0);
    assert_cells(&grad0, 3, 3, &[13, 17, 21, 13, 17, 21, 13, 17, 21]);

    let grad1 = g.get_grad(var1);
    assert_cells(&grad1, 3, 2, &[9, 9, 12, 12, 15, 15]);
}
