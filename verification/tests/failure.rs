use smartcore::error::Failed;

#[test]
fn failure_message_names_both_counts() {
    let e = Failed::fit(20, 19);
    assert_eq!(
        e.message(),
        "number of feature rows (20) does not match number of labels (19)"
    );
}

#[test]
fn failure_message_renders_zero() {
    let e = Failed::fit(0, 105);
    assert_eq!(
        e.message(),
        "number of feature rows (0) does not match number of labels (105)"
    );
}
