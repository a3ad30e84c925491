use smartcore::distance::Distance;
use smartcore::euclidian::Euclidian;
use smartcore::fixed::{Fixed, SCALE};
use smartcore::linear_search::{select_k_smallest, KNNPoint, LinearKNNSearch};

fn q(x: f64) -> Fixed {
    Fixed { m: (x * SCALE as f64).round() as i64 }
}

struct SimpleDistance {}

impl Distance<i32> for SimpleDistance {
    fn distance(&self, a: &i32, b: &i32) -> Fixed {
        Fixed { m: ((a - b).abs() as i64) * SCALE }
    }
}

#[test]
fn knn_find() {
    let data1 = vec![1, 2, 3, 4, 5, 6, 7, 8, 9, 10];

    let algorithm1 = LinearKNNSearch::new(data1, SimpleDistance {});

    assert_eq!(vec![1, 2, 0], algorithm1.find(&2, 3));

    let data2 = vec![
        vec![q(1.), q(1.)],
        vec![q(2.), q(2.)],
        vec![q(3.), q(3.)],
        vec![q(4.), q(4.)],
        vec![q(5.), q(5.)],
    ];

    let algorithm2 = LinearKNNSearch::new(data2, Euclidian {});

    assert_eq!(vec![2, 3, 1], algorithm2.find(&vec![q(3.), q(3.)], 3));
}

#[test]
fn knn_point_eq() {
    let point1 = KNNPoint { distance: q(10.), index: Some(0) };

    let point2 = KNNPoint { distance: q(100.), index: Some(1) };

    let point3 = KNNPoint { distance: q(10.), index: Some(2) };

    let point_inf = KNNPoint { distance: Fixed { m: i64::MAX }, index: Some(3) };

    assert!(point2 > point1);
    assert_eq!(point3, point1);
    assert_ne!(point3, point2);
    assert!(point_inf > point3 && point_inf > point2 && point_inf > point1);
}

#[test]
fn select_k_smallest_orders_by_distance() {
    let dists = vec![q(5.), q(1.), q(4.), q(0.5), q(2.)];
    let picked = select_k_smallest(&dists, 3);
    assert_eq!(picked, vec![3, 1, 4]);
}

#[test]
fn select_k_smallest_skips_sentinels() {
    let dists = vec![Fixed { m: i64::MAX }, q(1.), Fixed { m: i64::MAX }];
    let picked = select_k_smallest(&dists, 2);
    assert_eq!(picked, vec![1]);
}
