use npucore::arch::bootstrap_init;
use npucore::arch::time::{get_clock_freq, next_trigger, CLOCK_FREQ, TICKS_PER_SEC};

#[test]
fn clock_frequency() {
    assert_eq!(get_clock_freq(), 12_500_000);
    assert_eq!(CLOCK_FREQ / TICKS_PER_SEC, 500_000);
}

#[test]
fn next_trigger_is_one_interval_later() {
    assert_eq!(next_trigger(0), 500_000);
    assert_eq!(next_trigger(1_000), 501_000);
    assert_eq!(next_trigger(usize::MAX - 500_000), usize::MAX);
}

#[test]
fn bootstrap_does_nothing() {
    bootstrap_init();
}
