use boa_fapi::clock::unix_millis;
use boa_fapi::{Clock, SystemClock};

#[test]
fn system_clock_returns_plausible_unix_millis() {
    let now = SystemClock.now_unix_millis();
    assert!(now > 1_577_836_800_000, "clock behind 2020: {now}");
    assert!(now < 4_102_344_000_000, "clock past 2100: {now}");
}

#[test]
fn distances_from_the_epoch_saturate() {
    assert_eq!(unix_millis(1_700_000_000_000, true), 1_700_000_000_000);
    assert_eq!(unix_millis(5, false), -5);
    assert_eq!(unix_millis(u128::MAX, true), i64::MAX);
    assert_eq!(unix_millis(u128::MAX, false), i64::MIN);
    assert_eq!(unix_millis(i64::MAX as u128, false), -i64::MAX);
}
