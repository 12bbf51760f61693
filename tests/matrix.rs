use ray_tracer::{FuzzyEq, Matrix};

#[derive(Clone, Copy, Debug, PartialEq)]
struct Num(f64);

impl FuzzyEq<Num> for Num {
    fn fuzzy_eq(&self, other: &Num) -> bool {
        (self.0 - other.0).abs() < 1e-5
    }
}

fn nums<const D: usize>(rows: [[f64; D]; D]) -> Matrix<Num, D> {
    Matrix(rows.map(|r| r.map(Num)))
}

#[test]
fn matrix2() {
    let m = Matrix([[-3.0, 5.0], [1.0, 2.0]]);

    assert_eq!(m.at(0, 0), -3.0);
    assert_eq!(m.at(0, 1), 5.0);
    assert_eq!(m.at(1, 0), 1.0);
    assert_eq!(m.at(1, 1), 2.0);
}

#[test]
fn matrix3() {
    let m = Matrix([[-3.0, 5.0, 0.0], [1.0, -2.0, -7.0], [0.0, 1.0, 1.0]]);

    assert_eq!(m.at(0, 0), -3.0);
    assert_eq!(m.at(1, 1), -2.0);
    assert_eq!(m.at(2, 2), 1.0);
}

#[test]
fn matrix4() {
    let m = Matrix([
        [1.0, 2.0, 3.0, 4.0],
        [5.5, 6.5, 7.5, 8.5],
        [9.0, 10.0, 11.0, 12.0],
        [13.5, 14.5, 15.5, 16.5],
    ]);

    assert_eq!(m.at(0, 0), 1.0);
    assert_eq!(m.at(0, 3), 4.0);
    assert_eq!(m.at(1, 0), 5.5);
    assert_eq!(m.at(1, 2), 7.5);
    assert_eq!(m.at(2, 2), 11.0);
    assert_eq!(m.at(3, 0), 13.5);
    assert_eq!(m.at(3, 2), 15.5);
}

#[test]
fn identical_matrices() {
    let a = nums([
        [1.0, 2.0, 3.0, 4.0],
        [5.0, 6.0, 7.0, 8.0],
        [9.0, 8.0, 7.0, 6.0],
        [5.0, 4.0, 3.0, 2.0],
    ]);
    let b = nums([
        [1.0, 2.0, 3.0, 4.0],
        [5.0, 6.0, 7.0, 8.0],
        [9.0, 8.0, 7.0, 6.0],
        [5.0, 4.0, 3.0, 2.0],
    ]);

    assert!(a.fuzzy_eq(&b));
}

#[test]
fn matrix_equality_with_different_matrices() {
    let a = nums([
        [1.0, 2.0, 3.0, 4.0],
        [5.0, 6.0, 7.0, 8.0],
        [9.0, 8.0, 7.0, 6.0],
        [5.0, 4.0, 3.0, 2.0],
    ]);
    let b = nums([
        [2.0, 3.0, 4.0, 5.0],
        [6.0, 7.0, 8.0, 9.0],
        [8.0, 7.0, 6.0, 5.0],
        [4.0, 3.0, 2.0, 1.0],
    ]);

    assert!(!a.fuzzy_eq(&b));
}

#[test]
fn matrices_within_rounding_are_fuzzy_equal() {
    let a = nums([[1.0, 2.0], [3.0, 4.0]]);
    let b = nums([[1.000001, 2.0], [3.0, 3.999999]]);
    let c = nums([[1.0, 2.0], [3.0, 4.001]]);

    assert!(a.fuzzy_eq(&b));
    assert!(!a.fuzzy_eq(&c));
}

#[test]
fn transposing_a_matrix() {
    let a = Matrix([
        [0.0, 9.0, 3.0, 0.0],
        [9.0, 8.0, 0.0, 8.0],
        [1.0, 8.0, 5.0, 3.0],
        [0.0, 0.0, 5.0, 8.0],
    ]);
    let transposed = Matrix([
        [0.0, 9.0, 1.0, 0.0],
        [9.0, 8.0, 8.0, 0.0],
        [3.0, 0.0, 5.0, 5.0],
        [0.0, 8.0, 3.0, 8.0],
    ]);

    assert_eq!(a.transpose(), transposed);
}

#[test]
fn transposing_identity_matrix() {
    let matrix = Matrix([
        [1.0, 0.0, 0.0, 0.0],
        [0.0, 1.0, 0.0, 0.0],
        [0.0, 0.0, 1.0, 0.0],
        [0.0, 0.0, 0.0, 1.0],
    ]);

    assert_eq!(matrix.transpose(), matrix);
}

#[test]
fn submatrix_of_a3x3_matrix_is_a_2x2_matrix() {
    let a = Matrix([[1.0, 5.0, 0.0], [-3.0, 2.0, 7.0], [0.0, 6.0, -3.0]]);
    let b = Matrix([[-3.0, 2.0], [0.0, 6.0]]);

    assert_eq!(a.submatrix(0, 2), b);
}

#[test]
fn submatrix_of_a4x4_matrix_is_a_3x3_matrix() {
    let a = Matrix([
        [-6.0, 1.0, 1.0, 6.0],
        [-8.0, 5.0, 8.0, 6.0],
        [-1.0, 0.0, 8.0, 2.0],
        [-7.0, 1.0, -1.0, 1.0],
    ]);
    let b = Matrix([[-6.0, 1.0, 6.0], [-8.0, 8.0, 6.0], [-7.0, -1.0, 1.0]]);

    assert_eq!(a.submatrix(2, 1), b);
}

#[test]
fn filled_matrix_and_single_entry_update() {
    let mut m = Matrix::<i32, 3>::new(7);

    assert_eq!(m.size(), 3);
    m.set(1, 2, -4);

    assert_eq!(m.at(1, 2), -4);
    assert_eq!(m.at(2, 1), 7);
    assert_eq!(m.transpose().at(2, 1), -4);
}
