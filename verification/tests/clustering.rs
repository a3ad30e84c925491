use smartcore::fixed::{Fixed, SCALE};
use smartcore::kmeans::{KMeans, KMeansParameters};

fn q(x: f64) -> Fixed {
    Fixed { m: (x * SCALE as f64).round() as i64 }
}

fn iris_x() -> Vec<Vec<Fixed>> {
    let rows: Vec<Vec<f64>> = vec![
        vec![5.1, 3.5, 1.4, 0.2],
        vec![4.9, 3.0, 1.4, 0.2],
        vec![4.7, 3.2, 1.3, 0.2],
        vec![4.6, 3.1, 1.5, 0.2],
        vec![5.0, 3.6, 1.4, 0.2],
        vec![5.4, 3.9, 1.7, 0.4],
        vec![4.6, 3.4, 1.4, 0.3],
        vec![5.0, 3.4, 1.5, 0.2],
        vec![4.4, 2.9, 1.4, 0.2],
        vec![4.9, 3.1, 1.5, 0.1],
        vec![7.0, 3.2, 4.7, 1.4],
        vec![6.4, 3.2, 4.5, 1.5],
        vec![6.9, 3.1, 4.9, 1.5],
        vec![5.5, 2.3, 4.0, 1.3],
        vec![6.5, 2.8, 4.6, 1.5],
        vec![5.7, 2.8, 4.5, 1.3],
        vec![6.3, 3.3, 4.7, 1.6],
        vec![4.9, 2.4, 3.3, 1.0],
        vec![6.6, 2.9, 4.6, 1.3],
        vec![5.2, 2.7, 3.9, 1.4],
    ];
    rows.into_iter().map(|r| r.into_iter().map(q).collect()).collect()
}

#[test]
fn fit_predict_iris() {
    let x = iris_x();

    let kmeans = KMeans::new(&x, 2, Default::default());

    let y = kmeans.predict(&x);

    for i in 0..y.len() {
        assert_eq!((y[i].m / SCALE) as usize, kmeans.y[i]);
    }
}

#[test]
fn kmeans_assignments_are_valid_clusters() {
    let x = iris_x();
    let kmeans = KMeans::new(&x, 3, KMeansParameters { max_iter: 10, seed: 11 });
    assert_eq!(kmeans.y.len(), x.len());
    for c in &kmeans.y {
        assert!(*c < 3);
    }
    assert_eq!(kmeans.centroids.len(), 3);
    for centroid in &kmeans.centroids {
        assert_eq!(centroid.len(), 4);
    }
}
