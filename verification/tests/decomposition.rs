use smartcore::fixed::{Fixed, SCALE};
use smartcore::matrix::DenseMatrix;
use smartcore::qr::QRDecomposableMatrix;

fn q(x: f64) -> Fixed {
    Fixed { m: (x * SCALE as f64).round() as i64 }
}

fn to_f64(x: Fixed) -> f64 {
    x.m as f64 / SCALE as f64
}

fn mat(rows: Vec<Vec<f64>>, cols: usize) -> DenseMatrix {
    let data: Vec<Vec<Fixed>> = rows.into_iter().map(|r| r.into_iter().map(q).collect()).collect();
    DenseMatrix::from_rows(data, cols)
}

fn approx_abs_eq(a: &DenseMatrix, b: &DenseMatrix, eps: f64) -> bool {
    let (m, n) = a.shape();
    let (bm, bn) = b.shape();
    if m != bm || n != bn {
        return false;
    }
    for i in 0..m {
        for j in 0..n {
            if (to_f64(a.get(i, j)).abs() - to_f64(b.get(i, j)).abs()).abs() > eps {
                return false;
            }
        }
    }
    true
}

#[test]
fn decompose() {
    let a = mat(vec![vec![0.9, 0.4, 0.7], vec![0.4, 0.5, 0.3], vec![0.7, 0.3, 0.8]], 3);
    let expected_q = mat(
        vec![
            vec![-0.7448, 0.2436, 0.6212],
            vec![-0.331, -0.9432, -0.027],
            vec![-0.5793, 0.2257, -0.7832],
        ],
        3,
    );
    let expected_r = mat(
        vec![
            vec![-1.2083, -0.6373, -1.0842],
            vec![0.0, -0.3064, 0.0682],
            vec![0.0, 0.0, -0.1999],
        ],
        3,
    );
    let qr = a.qr();
    assert!(approx_abs_eq(&qr.Q(), &expected_q, 1e-4));
    assert!(approx_abs_eq(&qr.R(), &expected_r, 1e-4));
}

#[test]
fn qr_solve_mut() {
    let a = mat(vec![vec![0.9, 0.4, 0.7], vec![0.4, 0.5, 0.3], vec![0.7, 0.3, 0.8]], 3);
    let b = mat(vec![vec![0.5, 0.2], vec![0.5, 0.8], vec![0.5, 0.3]], 2);
    let expected_w = mat(
        vec![
            vec![-0.2027027, -1.2837838],
            vec![0.8783784, 2.2297297],
            vec![0.4729730, 0.6621622],
        ],
        2,
    );
    let w = a.qr_solve_mut(b).unwrap();
    let (m, n) = w.shape();
    assert_eq!((m, n), (3, 2));
    for i in 0..3 {
        for j in 0..2 {
            assert!((to_f64(w.get(i, j)) - to_f64(expected_w.get(i, j))).abs() < 1e-2);
        }
    }
}

#[test]
fn upper_factor_is_exact() {
    let a = mat(vec![vec![2.0, 1.0], vec![0.0, 3.0], vec![0.0, 0.0]], 2);
    let qr = a.qr();
    let r = qr.R();
    let (m, n) = r.shape();
    assert_eq!((m, n), (2, 2));
    assert_eq!(r.get(1, 0).m, 0);
    assert_eq!(r.get(0, 0).m, qr.tau[0].m);
    assert_eq!(r.get(1, 1).m, qr.tau[1].m);
    assert_eq!(r.get(0, 1).m, qr.qr.get(0, 1).m);
}

#[test]
fn singular_system_is_reported() {
    let a = mat(vec![vec![1.0, 0.0], vec![1.0, 0.0]], 2);
    let b = mat(vec![vec![1.0], vec![2.0]], 1);
    assert!(a.qr_solve_mut(b).is_none());
}
