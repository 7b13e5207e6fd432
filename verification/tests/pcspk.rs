use kernel_core::devices::pcspk::{off, on, read_counter, reload_bytes, Delay};

#[test]
fn off_clears_the_two_lowest_bits() {
    assert_eq!(off(0x03), 0x00);
    assert_eq!(off(0xFF), 0xFC);
    assert_eq!(off(0x31), 0x30);
    assert_eq!(off(0x30), 0x30);
    for status in 0..=255u8 {
        assert_eq!(off(status), status & 0xFC);
    }
}

#[test]
fn on_sets_the_two_lowest_bits() {
    assert_eq!(on(0x00), 0x03);
    assert_eq!(on(0x30), 0x33);
    assert_eq!(on(0xFE), 0xFF);
    for status in 0..=255u8 {
        assert_eq!(off(on(status)), off(status));
    }
}

#[test]
fn reload_bytes_divide_the_clock() {
    // 1193180 / 440 = 2711 = 0x0A97
    assert_eq!(reload_bytes(440), (0x97, 0x0A));
    // 1193180 / 1320 = 903 = 0x0387
    assert_eq!(reload_bytes(1320), (0x87, 0x03));
    assert_eq!(reload_bytes(1193180), (1, 0));
    assert_eq!(reload_bytes(u32::MAX), (0, 0));
}

#[test]
fn reload_bytes_drop_bits_above_sixteen() {
    // 1193180 / 1 = 0x1234DC
    assert_eq!(reload_bytes(1), (0xDC, 0x34));
    // 1193180 / 18 = 66287 = 0x102EF
    assert_eq!(reload_bytes(18), (0xEF, 0x02));
}

#[test]
fn read_counter_joins_the_bytes() {
    assert_eq!(read_counter(0, 0), 0);
    assert_eq!(read_counter(0x34, 0x12), 0x1234);
    assert_eq!(read_counter(0xFF, 0xFF), 0xFFFF);
    assert_eq!(read_counter(0xFF, 0), 0xFF);
    assert_eq!(read_counter(0, 1), 0x100);
}

#[test]
fn delay_of_no_time_is_over_at_once() {
    let d = Delay::start(1000, 0);
    assert!(d.done());
}

#[test]
fn delay_counts_ticks_of_a_counter_that_runs_down() {
    // one millisecond is 1193 ticks
    let mut d = Delay::start(5000, 1);
    assert!(!d.done());
    d.tick(4000);
    assert!(!d.done());
    d.tick(3808);
    assert!(!d.done());
    d.tick(3807);
    assert!(d.done());
}

#[test]
fn delay_counts_across_a_restart_of_the_counter() {
    let mut d = Delay::start(100, 1);
    // the counter runs down to 0 and starts again at 0xFFFF
    d.tick(0);
    assert!(!d.done());
    // from time 0xFFFF to time 0xFFFF - 0xFC00 the clock has started again
    d.tick(0xFC00);
    assert!(!d.done());
    d.tick(0xFC00 - 70);
    assert!(d.done());
}
