use smartcore::euclidian::Euclidian;
use smartcore::fixed::{Fixed, SCALE};
use smartcore::minkowski::Minkowski;

fn q(x: f64) -> Fixed {
    Fixed { m: (x * SCALE as f64).round() as i64 }
}

fn to_f64(x: Fixed) -> f64 {
    x.m as f64 / SCALE as f64
}

#[test]
fn squared_distance() {
    let a = vec![q(1.), q(2.), q(3.)];
    let b = vec![q(4.), q(5.), q(6.)];

    let l2 = Euclidian {}.distance(&a, &b);

    assert!((to_f64(l2) - 5.19615242).abs() < 1e-8);
}

#[test]
fn minkowski_distance() {
    let a = vec![q(1.), q(2.), q(3.)];
    let b = vec![q(4.), q(5.), q(6.)];

    let l1 = Minkowski { p: 1 }.distance(&a, &b);
    let l2 = Minkowski { p: 2 }.distance(&a, &b);
    let l3 = Minkowski { p: 3 }.distance(&a, &b);

    assert!((to_f64(l1) - 9.0).abs() < 1e-8);
    assert!((to_f64(l2) - 5.19615242).abs() < 1e-8);
    assert!((to_f64(l3) - 4.32674871).abs() < 1e-8);
}

#[test]
fn squared_distance_exact_mantissa() {
    let a = vec![q(1.), q(2.), q(3.)];
    let b = vec![q(4.), q(5.), q(6.)];
    let s = Euclidian::squared_distance(&a, &b);
    assert_eq!(s.m, 27 * SCALE);
}

#[test]
fn squared_distance_empty_rows() {
    let a: Vec<Fixed> = vec![];
    let b: Vec<Fixed> = vec![];
    assert_eq!(Euclidian::squared_distance(&a, &b).m, 0);
}

#[test]
fn minkowski_order_one_is_exact() {
    let a = vec![q(0.5), q(-2.25)];
    let b = vec![q(2.0), q(0.75)];
    let l1 = Minkowski { p: 1 }.distance(&a, &b);
    assert_eq!(l1.m, q(4.5).m);
}
