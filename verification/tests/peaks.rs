use cpu_grid::binary64::Real;
use cpu_grid::layout::strip_ansi;
use cpu_grid::peaks::{
    get_blink_toggle, is_blink_active, time_since, write_watermark_buf, write_watermark_inline, StorageHrHwState,
    ValuePeakTracker,
};
use cpu_grid::rates::{rate_of, to_seconds};

const SECOND: u64 = 1_000_000_000;

fn num(x: f64) -> Real {
    Real::from_bits(x.to_bits())
}

fn back(x: &Real) -> f64 {
    f64::from_bits(x.to_bits())
}

#[test]
fn strobe_changes_every_quarter_second() {
    assert!(get_blink_toggle(0));
    assert!(get_blink_toggle(249));
    assert!(!get_blink_toggle(250));
    assert!(!get_blink_toggle(499));
    assert!(get_blink_toggle(500));
    assert!(get_blink_toggle(1_700_000_000_000));
}

#[test]
fn peaks_strobe_for_three_seconds() {
    assert!(!is_blink_active(None, 5));
    assert!(is_blink_active(Some(SECOND), SECOND));
    assert!(is_blink_active(Some(SECOND), 4 * SECOND - 1));
    assert!(!is_blink_active(Some(SECOND), 4 * SECOND));
    assert!(is_blink_active(Some(SECOND), 0));
    assert_eq!(time_since(9, 5), 0);
}

#[test]
fn highest_and_lowest_values() {
    let mut t = ValuePeakTracker::new();
    assert_eq!(t.max_color, "\x1b[1;37m");
    assert!(!t.update_max(&num(20.0), "red", 1));
    assert!(!t.update_min(&num(20.0), "red", 1));
    assert_eq!(back(&t.max_val), 20.0);
    assert_eq!(t.last_max_peak, None);
    assert!(t.update_max(&num(21.5), "hot", 2));
    assert!(!t.update_max(&num(21.5), "same", 3));
    assert!(!t.update_max(&num(1.0), "low", 4));
    assert_eq!(back(&t.max_val), 21.5);
    assert_eq!(t.max_color, "hot");
    assert_eq!(t.last_max_peak, Some(2));
    assert!(t.update_min(&num(-4.0), "cold", 5));
    assert!(!t.update_min(&num(3.0), "mild", 6));
    assert_eq!(back(&t.min_val), -4.0);
    assert_eq!(t.min_color, "cold");
    assert_eq!(t.last_min_peak, Some(5));
}

#[test]
fn storage_peaks_settle() {
    let mut s = StorageHrHwState::new(0);
    s.update(&num(500.0), &num(10.0), 0);
    assert_eq!(back(&s.current_r), 0.0);
    s.update(&num(100.0), &num(20.0), SECOND);
    assert_eq!(back(&s.current_r), 0.0);
    s.update(&num(100.0), &num(0.0), SECOND * 3 / 2);
    assert_eq!(back(&s.current_r), 500.0);
    assert_eq!(s.last_r_peak, Some(SECOND * 3 / 2));
    assert_eq!(back(&s.current_w), 0.0);
    s.update(&num(0.0), &num(0.0), SECOND * 5 / 2);
    assert_eq!(back(&s.current_w), 20.0);
    s.update(&num(1.0), &num(1.0), SECOND * 60);
    assert_eq!(back(&s.current_r), 500.0);
    assert_eq!(s.last_r_peak, Some(SECOND * 3 / 2));
}

#[test]
fn watermarks_in_each_state() {
    let show = |blink, bright, stays| write_watermark_inline("HT:", "55.0°C", "\x1b[31m", blink, bright, stays);
    let lit = "\x1b[31m\x1b[1mHT: \x1b[31m\x1b[1m55.0°C\x1b[0m";
    assert_eq!(show(true, true, false), lit);
    assert_eq!(show(false, false, true), lit);
    assert_eq!(show(true, false, true), "\x1b[1;37mHT: \x1b[1;37m55.0°C\x1b[0m");
    assert_eq!(show(false, true, false), "\x1b[1;37mHT: \x1b[31m\x1b[1m55.0°C\x1b[0m");
    for blink in [true, false] {
        for bright in [true, false] {
            assert_eq!(strip_ansi(&show(blink, bright, false)), 10);
        }
    }
    let mut buf = "| ".to_string();
    write_watermark_buf(&mut buf, "HT:", "55.0°C", "\x1b[31m", true, true, false);
    assert_eq!(buf, format!("| {}", lit));
}

#[test]
fn rates_of_counters() {
    assert_eq!(back(&to_seconds(1_500_000_000)), 1.5);
    assert_eq!(back(&to_seconds(2_000_000_001)), 2.0 + 1.0 / 1e9);
    assert_eq!(back(&rate_of(1000, SECOND, 5000, 3 * SECOND)), 2000.0);
    assert_eq!(back(&rate_of(5000, SECOND, 1000, 3 * SECOND)), 0.0);
    assert_eq!(back(&rate_of(1000, SECOND, 5000, SECOND)), 0.0);
    assert_eq!(back(&rate_of(0, 0, 100, 300_000_000)), 100.0 / 0.3);
}

#[test]
fn the_first_of_the_highest_is_kept() {
    let mut t = ValuePeakTracker::new();
    for (i, (x, color)) in [(3.0, "a"), (7.0, "b"), (-1.0, "c"), (7.0, "d"), (6.5, "e"), (-1.0, "f")].iter().enumerate() {
        t.update_max(&num(*x), color, i as u64);
        t.update_min(&num(*x), color, i as u64);
    }
    assert_eq!((back(&t.max_val), t.max_color.as_str(), t.last_max_peak), (7.0, "b", Some(1)));
    assert_eq!((back(&t.min_val), t.min_color.as_str(), t.last_min_peak), (-1.0, "c", Some(2)));
}
