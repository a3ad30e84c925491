use smartcore::error::Failed;
use smartcore::fixed::{Fixed, SCALE};
use smartcore::kernel::{Kernel, LinearKernel};
use smartcore::svc::{Cache, Optimizer, SupportVector, SVCParameters, SVC};

fn q(x: f64) -> Fixed {
    Fixed { m: (x * SCALE as f64).round() as i64 }
}

fn to_f64(x: Fixed) -> f64 {
    x.m as f64 / SCALE as f64
}

fn iris_x() -> Vec<Vec<Fixed>> {
    let rows: Vec<Vec<f64>> = vec![
        vec![5.1, 3.5, 1.4, 0.2],
        vec![4.9, 3.0, 1.4, 0.2],
        vec![4.7, 3.2, 1.3, 0.2],
        vec![4.6, 3.1, 1.5, 0.2],
        vec![5.0, 3.6, 1.4, 0.2],
        vec![5.4, 3.9, 1.7, 0.4],
        vec![4.6, 3.4, 1.4, 0.3],
        vec![5.0, 3.4, 1.5, 0.2],
        vec![4.4, 2.9, 1.4, 0.2],
        vec![4.9, 3.1, 1.5, 0.1],
        vec![7.0, 3.2, 4.7, 1.4],
        vec![6.4, 3.2, 4.5, 1.5],
        vec![6.9, 3.1, 4.9, 1.5],
        vec![5.5, 2.3, 4.0, 1.3],
        vec![6.5, 2.8, 4.6, 1.5],
        vec![5.7, 2.8, 4.5, 1.3],
        vec![6.3, 3.3, 4.7, 1.6],
        vec![4.9, 2.4, 3.3, 1.0],
        vec![6.6, 2.9, 4.6, 1.3],
        vec![5.2, 2.7, 3.9, 1.4],
    ];
    rows.into_iter().map(|r| r.into_iter().map(q).collect()).collect()
}

fn iris_y() -> Vec<Fixed> {
    let y: Vec<f64> = vec![
        -1., -1., -1., -1., -1., -1., -1., -1., 1., 1., 1., 1., 1., 1., 1., 1., 1., 1., 1., 1.,
    ];
    y.into_iter().map(q).collect()
}

fn iris_params() -> SVCParameters {
    SVCParameters { epoch: 2, c: q(200.0), tol: q(1e-3), coarse_tol: q(1000.0), seed: 42 }
}

#[test]
fn svc_fit_predict() {
    let x = iris_x();
    let y = iris_y();

    let y_hat = SVC::fit(&x, &y, LinearKernel {}, iris_params())
        .and_then(|lr| lr.predict(&x))
        .unwrap();

    let mut correct: usize = 0;
    for i in 0..y.len() {
        if y_hat[i].m == y[i].m {
            correct += 1;
        }
    }
    assert!(correct as f64 / y.len() as f64 >= 0.9);
}

#[test]
fn fit_rejects_mismatched_shapes() {
    let x = iris_x();
    let mut y = iris_y();
    y.pop();

    let r = SVC::fit(&x, &y, LinearKernel {}, iris_params());
    match r {
        Ok(_) => panic!("mismatched shapes must be rejected"),
        Err(e) => {
            assert_eq!(e, Failed::fit(20, 19));
            assert_eq!(e.counts(), (20, 19));
        }
    }
}

#[test]
fn degenerate_two_sample_training_terminates() {
    let x = vec![vec![q(1.0), q(0.0)], vec![q(3.0), q(4.0)]];
    let y = vec![q(-1.0), q(1.0)];

    let model = SVC::fit(
        &x,
        &y,
        LinearKernel {},
        SVCParameters { epoch: 2, c: q(200.0), tol: q(1e-3), coarse_tol: q(1000.0), seed: 7 },
    )
    .unwrap();

    assert!(model.b.m.abs() < i64::MAX);
    assert!(model.instances.len() >= 2);
    let mut has_pos = false;
    let mut has_neg = false;
    for row in &model.instances {
        if row[0].m == q(1.0).m {
            has_neg = true;
        }
        if row[0].m == q(3.0).m {
            has_pos = true;
        }
    }
    assert!(has_pos && has_neg);

    let y_hat = model.predict(&x).unwrap();
    assert_eq!(y_hat.len(), 2);
}

fn trained_optimizer() -> (Optimizer<LinearKernel>, Cache) {
    let x = iris_x();
    let y = iris_y();
    let mut opt = Optimizer::new(x.clone(), y.clone(), LinearKernel {}, iris_params());
    let mut cache = Cache::new();
    for i in 0..x.len() {
        opt.process(i, x[i].clone(), y[i], &mut cache);
    }
    (opt, cache)
}

#[test]
fn box_invariant_after_updates() {
    let (mut opt, mut cache) = trained_optimizer();
    for _ in 0..5 {
        opt.reprocess(q(1e-3), &mut cache);
    }
    for v in &opt.sv {
        assert!(v.cmin.m <= v.alpha.m && v.alpha.m <= v.cmax.m);
    }
}

#[test]
fn gradient_consistency_after_steps() {
    let (mut opt, mut cache) = trained_optimizer();
    for _ in 0..3 {
        opt.reprocess(q(1e-3), &mut cache);
    }
    let kernel = LinearKernel {};
    for v in &opt.sv {
        let mut g = to_f64(opt.y[v.index]);
        for w in &opt.sv {
            let k = kernel.apply(&w.x, &v.x);
            g -= to_f64(w.alpha) * to_f64(k);
        }
        assert!((g - to_f64(v.grad)).abs() < 1e-6);
    }
}

#[test]
fn reprocess_is_idle_at_optimality() {
    // With a single class nothing is ever down-eligible, so the extremes
    // satisfy gmin >= gmax and an unrestricted step can select no pair.
    let x = vec![vec![q(1.0), q(2.0)], vec![q(2.0), q(1.0)], vec![q(3.0), q(3.0)]];
    let y = vec![q(1.0), q(1.0), q(1.0)];
    let mut opt = Optimizer::new(x.clone(), y.clone(), LinearKernel {}, iris_params());
    let mut cache = Cache::new();
    for i in 0..x.len() {
        opt.process(i, x[i].clone(), y[i], &mut cache);
    }
    opt.find_min_max_gradient();
    assert!(opt.gmin.m >= opt.gmax.m);
    let before: Vec<(usize, i64)> = opt.sv.iter().map(|v| (v.index, v.alpha.m)).collect();
    let again = opt.reprocess(q(1e-3), &mut cache);
    assert!(!again);
    let after: Vec<(usize, i64)> = opt.sv.iter().map(|v| (v.index, v.alpha.m)).collect();
    for (idx, a) in &after {
        assert!(before.contains(&(*idx, *a)));
    }
}

#[test]
fn reprocess_gap_is_monotone() {
    let x = vec![vec![q(1.0), q(0.0)], vec![q(3.0), q(4.0)]];
    let y = vec![q(-1.0), q(1.0)];
    let mut opt = Optimizer::new(
        x.clone(),
        y.clone(),
        LinearKernel {},
        SVCParameters { epoch: 2, c: q(200.0), tol: q(1e-3), coarse_tol: q(1000.0), seed: 7 },
    );
    let mut cache = Cache::new();
    for i in 0..x.len() {
        opt.process(i, x[i].clone(), y[i], &mut cache);
    }
    let tol = q(1e-3);
    let mut prev: Option<i64> = None;
    let mut reached = false;
    for _ in 0..50 {
        opt.reprocess(tol, &mut cache);
        opt.find_min_max_gradient();
        let gap = opt.gmax.sub(opt.gmin).m;
        if let Some(p) = prev {
            assert!(gap <= p);
        }
        if gap <= tol.m {
            reached = true;
            break;
        }
        prev = Some(gap);
    }
    assert!(reached);
}

#[test]
fn cache_reads_are_symmetric() {
    let kernel = LinearKernel {};
    let a = SupportVector::new(3, vec![q(1.0), q(2.0)], q(1.0), q(0.0), q(1.0), &kernel);
    let b = SupportVector::new(8, vec![q(-0.5), q(4.0)], q(-1.0), q(0.0), q(1.0), &kernel);
    let mut cache = Cache::new();
    let ab = cache.get(&a, &b, &kernel);
    let ba = cache.get(&b, &a, &kernel);
    assert_eq!(ab.m, ba.m);

    let mut warm = Cache::new();
    warm.insert(8, 3, q(123.25));
    assert_eq!(warm.get(&a, &b, &kernel).m, q(123.25).m);
    assert_eq!(warm.get(&b, &a, &kernel).m, q(123.25).m);
}

#[test]
fn cache_drop_purges_both_key_components() {
    let kernel = LinearKernel {};
    let a = SupportVector::new(5, vec![q(1.0), q(2.0)], q(1.0), q(0.0), q(1.0), &kernel);
    let b = SupportVector::new(9, vec![q(3.0), q(0.5)], q(-1.0), q(0.0), q(1.0), &kernel);
    let marker = q(777.0);

    let mut cache = Cache::new();
    cache.insert(5, 9, marker);
    assert_eq!(cache.get(&a, &b, &kernel).m, marker.m);
    cache.drop(&vec![9]);
    let recomputed = cache.get(&a, &b, &kernel);
    assert_eq!(recomputed.m, kernel.apply(&a.x, &b.x).m);
    assert_ne!(recomputed.m, marker.m);

    let mut cache2 = Cache::new();
    cache2.insert(9, 5, marker);
    cache2.drop(&vec![5]);
    assert_eq!(cache2.get(&b, &a, &kernel).m, kernel.apply(&a.x, &b.x).m);
}

#[test]
fn support_vector_box_bounds_follow_label() {
    let kernel = LinearKernel {};
    let pos = SupportVector::new(0, vec![q(1.0)], q(1.0), q(1.0), q(5.0), &kernel);
    assert_eq!(pos.cmin.m, 0);
    assert_eq!(pos.cmax.m, q(5.0).m);
    assert_eq!(pos.alpha.m, 0);
    let neg = SupportVector::new(1, vec![q(1.0)], q(-1.0), q(-1.0), q(5.0), &kernel);
    assert_eq!(neg.cmin.m, q(-5.0).m);
    assert_eq!(neg.cmax.m, 0);
}

#[test]
fn fit_weights_sum_to_zero() {
    let x = iris_x();
    let y = iris_y();
    let model = SVC::fit(&x, &y, LinearKernel {}, iris_params()).unwrap();
    let total: i64 = model.w.iter().map(|w| w.m).sum();
    assert_eq!(total, 0);
    for w in &model.w {
        assert!(w.m.abs() <= q(200.0).m);
    }
}

#[test]
fn process_rejects_an_already_active_sample() {
    let x = vec![vec![q(1.0), q(0.0)], vec![q(3.0), q(4.0)]];
    let y = vec![q(-1.0), q(1.0)];
    let mut opt = Optimizer::new(x.clone(), y.clone(), LinearKernel {}, iris_params());
    let mut cache = Cache::new();
    assert!(opt.process(0, x[0].clone(), y[0], &mut cache));
    let len_before = opt.sv.len();
    assert!(!opt.process(0, x[0].clone(), y[0], &mut cache));
    assert_eq!(opt.sv.len(), len_before);
}
