use cpu_grid::binary64::Real;
use cpu_grid::units::{
    number, share_of, FormatDiskSpeed, FormatDynamic6, FormatHoc, FormatIdleTime, FormatNetSpeed, FormatSize,
};

fn num(x: f64) -> Real {
    Real::from_bits(x.to_bits())
}

fn disk(x: f64) -> String {
    FormatDiskSpeed(num(x)).text()
}

fn net(x: f64) -> String {
    FormatNetSpeed(num(x)).text()
}

fn hoc(x: f64) -> String {
    FormatHoc(num(x)).text()
}

fn six(x: f64) -> String {
    FormatDynamic6(num(x)).text()
}

#[test]
fn sizes_are_ten_wide() {
    assert_eq!(FormatSize(0).text(), "   0.0   B");
    assert_eq!(FormatSize(999).text(), " 999.0   B");
    assert_eq!(FormatSize(1000).text(), "  1000   B");
    assert_eq!(FormatSize(1023).text(), "  1023   B");
    assert_eq!(FormatSize(1024).text(), "   1.0  KB");
    assert_eq!(FormatSize(13207024435).text(), "  12.3  GB");
    assert_eq!(FormatSize(16777216 * 1024).text(), "  16.0  GB");
    assert_eq!(FormatSize(u64::MAX).text(), " 16384  PB");
    for shift in 0..64 {
        assert_eq!(FormatSize(u64::MAX >> shift).text().chars().count(), 10);
    }
}

#[test]
fn disk_speeds_are_nine_wide() {
    assert_eq!(disk(0.0), "  0.0 B/s");
    assert_eq!(disk(-0.0), " -0.0 B/s");
    assert_eq!(disk(-9999.4), "-9999 B/s");
    assert_eq!(disk(512.25), "512.2 B/s");
    assert_eq!(disk(1023.0), " 1023 B/s");
    assert_eq!(disk(1024.0), "  1.0 K/s");
    assert_eq!(disk(999.97), " 1000 B/s");
    assert_eq!(disk(550.0 * 1048576.0), "550.0 M/s");
    assert_eq!(disk(3.5 * 1073741824.0), "  3.5 G/s");
    assert_eq!(disk(2.0 * 1099511627776.0), "  2.0 T/s");
    assert_eq!(disk(7.0 * 1125899906842624.0), "  7.0 P/s");
    let mut x = 0.0;
    while x < 1e9 {
        assert_eq!(disk(x).chars().count(), 9, "{}", x);
        x = x * 1.13 + 0.37;
    }
}

#[test]
fn net_speeds_in_their_units() {
    assert_eq!(net(0.0), "   0.0   B/s");
    assert_eq!(net(-0.0), "  -0.0   B/s");
    assert_eq!(net(-999.9), "-999.9   B/s");
    assert_eq!(net(1536.0), "   1.5  KB/s");
    assert_eq!(net(125000000.0), " 119.2  MB/s");
    assert_eq!(net(1073741824.0 * 1.25), "  1.25  GB/s");
    assert_eq!(net(1099511627776.0 * 2.0), "  2.00  TB/s");
    assert_eq!(net(1073741824.0 * 999.98), "999.98  GB/s");
    let mut x = 0.0;
    while x < 1073741824.0 * 999.9 {
        assert_eq!(net(x).chars().count(), 12, "{}", x);
        x = x * 1.11 + 0.41;
    }
}

#[test]
fn idle_times_read_well() {
    assert_eq!(FormatIdleTime(5).text(), "5s");
    assert_eq!(FormatIdleTime(65).text(), "01:05");
    assert_eq!(FormatIdleTime(3661).text(), "01:01:01");
    assert_eq!(FormatIdleTime(90061).text(), "1 Days 01:01:01");
    assert_eq!(FormatIdleTime(2592000 + 86400 * 2 + 59).text(), "1 Months 2 Days 00:00:59");
    assert_eq!(FormatIdleTime(31536000 + 3600).text(), "1 Years 0 Months 0 Days 01:00:00");
    assert_eq!(FormatIdleTime(31536000).text(), "1 Years 0 Months 0 Days 00:00:00");
    assert_eq!(FormatIdleTime(31536000 * 3 - 1).text(), "2 Years 12 Months 4 Days 23:59:59");
}

#[test]
fn overclocks_are_five_wide() {
    assert_eq!(hoc(5012.3), "5.02G");
    assert_eq!(hoc(12345.0), "12.4G");
    assert_eq!(hoc(123456.0), " 124G");
    assert_eq!(hoc(999.2), "1000M");
    assert_eq!(hoc(450.0), " 450M");
    assert_eq!(hoc(0.5), " 500K");
    assert_eq!(hoc(2500000.0), "   3T");
    assert_eq!(hoc(1500000000.0), "   2P");
    assert_eq!(hoc(9999.0), "10.0G");
    let mut x = 0.01;
    while x < 8e9 {
        assert_eq!(hoc(x).chars().count(), 5, "{}", x);
        x *= 1.07;
    }
}

#[test]
fn numbers_in_six_characters() {
    assert_eq!(six(0.0), "0.0000");
    assert_eq!(six(3.59375), "3.5938");
    assert_eq!(six(800.5), "800.50");
    assert_eq!(six(99999.5), "100000");
    assert_eq!(six(12345.0), " 12345");
    assert_eq!(six(1234567.0), "999999");
    assert_eq!(six(9.99999), "10.000");
    assert_eq!(six(f64::NAN), "   NaN");
    assert_eq!(six(f64::INFINITY), "   inf");
    let mut x = 0.001;
    while x < 1e12 {
        assert_eq!(six(x).chars().count(), 6, "{}", x);
        x *= 1.09;
    }
}

#[test]
fn shares_of_a_whole() {
    assert_eq!(share_of(1, 4).to_bits(), 0.25f64.to_bits());
    assert_eq!(share_of(1, 3).to_bits(), (1.0f64 / 3.0).to_bits());
    assert_eq!(share_of(5, 0).to_bits(), 0.0f64.to_bits());
    assert_eq!(number(&num(41.25), 6, 1), format!("{:6.1}", 41.25));
}

#[test]
fn widths_below_zero() {
    assert_eq!(six(-0.0), "-0.000");
    assert_eq!(six(-99999.4), "-99999");
    assert_eq!(six(-123456.0), "     0");
    let hoc = |x: f64| FormatHoc(num(x)).text();
    assert_eq!(hoc(-0.0), "  -0K");
    assert_eq!(hoc(-0.5), "-500K");
    assert_eq!(hoc(f64::INFINITY), " infP");
    assert_eq!(hoc(f64::NAN), " NaNK");
    assert_eq!(hoc(f64::NEG_INFINITY), "-infK");
}
