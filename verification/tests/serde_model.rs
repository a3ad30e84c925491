use serde_json::Value;
use smartcore::fixed::{Fixed, SCALE};
use smartcore::kernel::LinearKernel;
use smartcore::svc::{SVCParameters, SVC};

fn q(x: f64) -> Fixed {
    Fixed { m: (x * SCALE as f64).round() as i64 }
}

fn iris_x() -> Vec<Vec<Fixed>> {
    let rows: Vec<Vec<f64>> = vec![
        vec![5.1, 3.5, 1.4, 0.2],
        vec![4.9, 3.0, 1.4, 0.2],
        vec![4.7, 3.2, 1.3, 0.2],
        vec![4.6, 3.1, 1.5, 0.2],
        vec![5.0, 3.6, 1.4, 0.2],
        vec![5.4, 3.9, 1.7, 0.4],
        vec![4.6, 3.4, 1.4, 0.3],
        vec![5.0, 3.4, 1.5, 0.2],
        vec![4.4, 2.9, 1.4, 0.2],
        vec![4.9, 3.1, 1.5, 0.1],
        vec![7.0, 3.2, 4.7, 1.4],
        vec![6.4, 3.2, 4.5, 1.5],
        vec![6.9, 3.1, 4.9, 1.5],
        vec![5.5, 2.3, 4.0, 1.3],
        vec![6.5, 2.8, 4.6, 1.5],
        vec![5.7, 2.8, 4.5, 1.3],
        vec![6.3, 3.3, 4.7, 1.6],
        vec![4.9, 2.4, 3.3, 1.0],
        vec![6.6, 2.9, 4.6, 1.3],
        vec![5.2, 2.7, 3.9, 1.4],
    ];
    rows.into_iter().map(|r| r.into_iter().map(q).collect()).collect()
}

fn model_to_value(m: &SVC<LinearKernel>) -> Value {
    let instances: Vec<Vec<i64>> = m
        .instances
        .iter()
        .map(|row| row.iter().map(|v| v.m).collect())
        .collect();
    let w: Vec<i64> = m.w.iter().map(|v| v.m).collect();
    let mut map = serde_json::Map::new();
    map.insert("instances".to_string(), Value::from(instances));
    map.insert("w".to_string(), Value::from(w));
    map.insert("b".to_string(), Value::from(m.b.m));
    Value::Object(map)
}

fn model_from_value(v: &Value) -> SVC<LinearKernel> {
    let instances: Vec<Vec<Fixed>> = v["instances"]
        .as_array()
        .unwrap()
        .iter()
        .map(|row| {
            row.as_array()
                .unwrap()
                .iter()
                .map(|cell| Fixed { m: cell.as_i64().unwrap() })
                .collect()
        })
        .collect();
    let w: Vec<Fixed> = v["w"]
        .as_array()
        .unwrap()
        .iter()
        .map(|cell| Fixed { m: cell.as_i64().unwrap() })
        .collect();
    let b = Fixed { m: v["b"].as_i64().unwrap() };
    SVC { kernel: LinearKernel {}, instances, w, b }
}

#[test]
fn svc_serde() {
    let x = iris_x();

    let y: Vec<Fixed> = vec![
        -1., -1., -1., -1., -1., -1., -1., -1., 1., 1., 1., 1., 1., 1., 1., 1., 1., 1., 1., 1.,
    ]
    .into_iter()
    .map(q)
    .collect();

    let svr = SVC::fit(
        &x,
        &y,
        LinearKernel {},
        SVCParameters { epoch: 2, c: q(1.0), tol: q(1e-3), coarse_tol: q(1000.0), seed: 42 },
    )
    .unwrap();

    let text = serde_json::to_string(&model_to_value(&svr)).unwrap();
    let parsed: Value = serde_json::from_str(&text).unwrap();
    let deserialized_svr = model_from_value(&parsed);

    assert_eq!(svr, deserialized_svr);
}
