use ragbooster::fixed::{narrow, Fixed, SCALE};

#[test]
fn constants_are_exact() {
    assert_eq!(Fixed::zero().raw(), 0);
    assert_eq!(Fixed::one().raw(), SCALE);
    assert_eq!(Fixed::half().raw(), SCALE / 2);
    assert_eq!(Fixed::from_raw(-7).raw(), -7);
}

#[test]
fn sums_and_differences_saturate() {
    let a = Fixed::from_raw(3 * SCALE);
    let b = Fixed::from_raw(SCALE / 4);
    assert_eq!(a.plus(b).raw(), 3 * SCALE + SCALE / 4);
    assert_eq!(a.minus(b).raw(), 3 * SCALE - SCALE / 4);
    assert_eq!(b.minus(a).raw(), SCALE / 4 - 3 * SCALE);

    let top = Fixed::from_raw(i64::MAX);
    let bottom = Fixed::from_raw(i64::MIN);
    assert_eq!(top.plus(a).raw(), i64::MAX);
    assert_eq!(bottom.minus(a).raw(), i64::MIN);
    assert_eq!(bottom.plus(top).raw(), -1);
    assert_eq!(top.minus(bottom).raw(), i64::MAX);
}

#[test]
fn products_round_toward_zero() {
    let half = Fixed::half();
    let third = Fixed::from_raw(SCALE / 3);
    // a third of a half is 0.1666..., cut after fifteen places
    assert_eq!(half.times(third).raw(), 166_666_666_666_666);
    assert_eq!(third.times(half).raw(), 166_666_666_666_666);
    assert_eq!(Fixed::from_raw(-SCALE / 3).times(half).raw(), -166_666_666_666_666);
    assert_eq!(Fixed::from_raw(1).times(half).raw(), 0);
    assert_eq!(Fixed::from_raw(-1).times(half).raw(), 0);
    assert_eq!(Fixed::one().times(third), third);
    assert_eq!(Fixed::zero().times(third), Fixed::zero());
}

#[test]
fn products_saturate() {
    let large = Fixed::from_raw(i64::MAX);
    assert_eq!(large.times(large).raw(), i64::MAX);
    assert_eq!(large.times(Fixed::from_raw(i64::MIN)).raw(), i64::MIN);
    assert_eq!(Fixed::from_raw(i64::MIN).times(Fixed::from_raw(i64::MIN)).raw(), i64::MAX);
}

#[test]
fn shares_round_toward_zero() {
    assert_eq!(Fixed::one().shared(3).raw(), 333_333_333_333_333);
    assert_eq!(Fixed::from_raw(-SCALE).shared(3).raw(), -333_333_333_333_333);
    assert_eq!(Fixed::from_raw(7).shared(8).raw(), 0);
    assert_eq!(Fixed::from_raw(-7).shared(8).raw(), 0);
    assert_eq!(Fixed::one().shared(10).shared(1_000_000).raw(), 100_000_000);
}

#[test]
fn complement_and_clip() {
    assert_eq!(Fixed::from_raw(SCALE / 4).complement().raw(), 3 * (SCALE / 4));
    assert_eq!(Fixed::one().complement(), Fixed::zero());
    assert_eq!(Fixed::from_raw(2 * SCALE).clip(), Fixed::one());
    assert_eq!(Fixed::from_raw(-1).clip(), Fixed::zero());
    assert_eq!(Fixed::from_raw(SCALE / 3).clip().raw(), SCALE / 3);
    assert_eq!(Fixed::one().clip(), Fixed::one());
    assert_eq!(Fixed::zero().clip(), Fixed::zero());
}

#[test]
fn hundredths_cut_the_rest() {
    assert_eq!(Fixed::one().hundredths(), 100);
    assert_eq!(Fixed::from_raw(SCALE / 4).hundredths(), 25);
    assert_eq!(Fixed::from_raw(SCALE / 1000 * 259).hundredths(), 25);
    assert_eq!(Fixed::from_raw(-(SCALE / 1000 * 259)).hundredths(), -25);
    assert_eq!(Fixed::from_raw(SCALE / 1000 * 9).hundredths(), 0);
    assert_eq!(Fixed::from_raw(i64::MAX).hundredths(), 922_337);
}

#[test]
fn wide_counts_are_narrowed() {
    assert_eq!(narrow(5), 5);
    assert_eq!(narrow(i64::MAX as i128 + 1), i64::MAX);
    assert_eq!(narrow(i64::MIN as i128 - 1), i64::MIN);
    assert_eq!(Fixed::from_wide(i128::MAX).raw(), i64::MAX);
    assert_eq!(Fixed::from_wide(i128::MIN).raw(), i64::MIN);
    assert_eq!(Fixed::from_wide(-12).raw(), -12);
}
