use kobara_ob::price::ticks_from_parts;
use rust_decimal::Decimal;

#[test]
fn same_scale_is_identity() {
    assert_eq!(ticks_from_parts(1000, 2, 2), Some(1000));
    assert_eq!(ticks_from_parts(0, 5, 2), Some(0));
    assert_eq!(ticks_from_parts(u64::MAX as i128, 0, 0), Some(u64::MAX));
}

#[test]
fn scaling_up_multiplies() {
    // 10.5 at tick scale 2 is 1050 ticks of 0.01
    assert_eq!(ticks_from_parts(105, 1, 2), Some(1050));
    // 10 (a whole number) at tick scale 2
    assert_eq!(ticks_from_parts(10, 0, 2), Some(1000));
}

#[test]
fn scaling_down_requires_whole_ticks() {
    // 10.500 at tick scale 2 is exactly 1050 ticks
    assert_eq!(ticks_from_parts(10500, 3, 2), Some(1050));
    // 10.501 is not a whole number of 0.01 ticks
    assert_eq!(ticks_from_parts(10501, 3, 2), None);
    // trailing non-zero digit two places down
    assert_eq!(ticks_from_parts(10510, 4, 2), None);
}

#[test]
fn negative_prices_are_rejected() {
    assert_eq!(ticks_from_parts(-1, 0, 2), None);
    assert_eq!(ticks_from_parts(-1000, 2, 2), None);
}

#[test]
fn tick_counts_beyond_u64_are_rejected() {
    assert_eq!(ticks_from_parts(u64::MAX as i128 + 1, 0, 0), None);
    // 2 * 10^19 > u64::MAX
    assert_eq!(ticks_from_parts(2, 0, 19), None);
    // but 1 * 10^19 fits
    assert_eq!(ticks_from_parts(1, 0, 19), Some(10_000_000_000_000_000_000));
}

#[test]
fn decimal_parts_convert_exactly() {
    // the canonical representation handed in by callers: 10.00 at scale 2
    let ten = Decimal::new(1000, 2);
    assert_eq!(ticks_from_parts(ten.mantissa(), ten.scale(), 2), Some(1000));
    // 10.5 written at scale 1 lands on the same grid
    let ten_and_a_half = Decimal::new(105, 1);
    assert_eq!(ticks_from_parts(ten_and_a_half.mantissa(), ten_and_a_half.scale(), 2), Some(1050));
    // a third of a cent is not a whole tick at scale 2
    let fraction = Decimal::new(10333, 3);
    assert_eq!(ticks_from_parts(fraction.mantissa(), fraction.scale(), 2), None);
}
