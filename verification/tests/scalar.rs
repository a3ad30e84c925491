use smartcore::fixed::{Fixed, SCALE};

#[test]
fn add_and_sub_are_exact_in_range() {
    let a = Fixed { m: 1_500_000_000 };
    let b = Fixed { m: 250_000_000 };
    assert_eq!(a.add(b).m, 1_750_000_000);
    assert_eq!(a.sub(b).m, 1_250_000_000);
}

#[test]
fn add_saturates_at_the_ends() {
    let a = Fixed { m: i64::MAX };
    let b = Fixed { m: 1 };
    assert_eq!(a.add(b).m, i64::MAX);
    let c = Fixed { m: i64::MIN };
    assert_eq!(c.sub(b).m, i64::MIN);
}

#[test]
fn mul_rescales_and_truncates_toward_zero() {
    let a = Fixed { m: 2_500_000_000 };
    let b = Fixed { m: 2_000_000_000 };
    assert_eq!(a.mul(b).m, 5_000_000_000);
    let c = Fixed { m: -1 };
    let d = Fixed { m: 1 };
    assert_eq!(c.mul(d).m, 0);
}

#[test]
fn div_rescales_and_truncates_toward_zero() {
    let a = Fixed { m: 1_000_000_000 };
    let b = Fixed { m: 3_000_000_000 };
    assert_eq!(a.div(b).m, 333_333_333);
    let c = Fixed { m: -1_000_000_000 };
    assert_eq!(c.div(b).m, -333_333_333);
}

#[test]
fn sqrt_is_the_floor_square_root() {
    let twentyseven = Fixed { m: 27 * SCALE };
    let r = twentyseven.sqrt();
    assert_eq!(r.m, 5_196_152_422);
    assert_eq!(Fixed { m: 0 }.sqrt().m, 0);
    assert_eq!(Fixed { m: SCALE }.sqrt().m, SCALE);
}

#[test]
fn neg_and_abs() {
    let a = Fixed { m: -7 };
    assert_eq!(a.neg().m, 7);
    assert_eq!(a.abs().m, 7);
    assert_eq!(Fixed { m: i64::MIN }.neg().m, i64::MAX);
}
