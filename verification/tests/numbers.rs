use cpu_grid::binary64::{power_of_two, Parts, Real};
use cpu_grid::decimal::{count, decimal, decimal_filled, fixed, parse};

fn num(x: f64) -> Real {
    Real::from_bits(x.to_bits())
}

fn back(x: &Real) -> f64 {
    f64::from_bits(x.to_bits())
}

fn alike(a: f64, b: f64) -> bool {
    (a.is_nan() && b.is_nan()) || a.to_bits() == b.to_bits()
}

struct Dice(u64);

impl Dice {
    fn roll(&mut self) -> u64 {
        self.0 ^= self.0 << 13;
        self.0 ^= self.0 >> 7;
        self.0 ^= self.0 << 17;
        self.0
    }

    fn number(&mut self) -> f64 {
        let pick = self.roll() % 8;
        match pick {
            0 => (self.roll() % 2000) as f64 / 8.0,
            1 => -((self.roll() % 100000) as f64) / 7.0,
            2 => self.roll() as f64,
            3 => f64::from_bits(self.roll() % (1 << 53)),
            4 => 1.0 + (self.roll() % 64) as f64 * f64::EPSILON,
            _ => f64::from_bits(self.roll()),
        }
    }
}

fn corners() -> Vec<f64> {
    vec![
        0.0,
        -0.0,
        1.0,
        -1.0,
        0.1,
        0.5,
        1.5,
        2.5,
        3.0,
        1e-300,
        5e-324,
        -5e-324,
        2.2250738585072014e-308,
        2.225073858507201e-308,
        f64::MAX,
        f64::MIN,
        f64::INFINITY,
        f64::NEG_INFINITY,
        f64::NAN,
        4503599627370496.5,
        9007199254740993.0,
        1e16,
        255.0,
        254.5,
        0.49999999999999994,
    ]
}

#[test]
fn bits_come_back() {
    for x in corners() {
        assert!(alike(back(&num(x)), x), "{}", x);
    }
    let mut dice = Dice(88172645463325252);
    for _ in 0..20000 {
        let x = f64::from_bits(dice.roll());
        assert!(alike(back(&num(x)), x), "{}", x);
    }
}

fn check_pair(x: f64, y: f64) {
    assert!(alike(back(&num(x).plus(num(y))), x + y), "{:e} + {:e}", x, y);
    assert!(alike(back(&num(x).minus(num(y))), x - y), "{:e} - {:e}", x, y);
    assert!(alike(back(&num(x).times(num(y))), x * y), "{:e} * {:e}", x, y);
    assert!(alike(back(&num(x).over(num(y))), x / y), "{:e} / {:e}", x, y);
    assert_eq!(num(x).less_than(&num(y)), x < y, "{:e} < {:e}", x, y);
    assert_eq!(num(x).equals(&num(y)), x == y, "{:e} == {:e}", x, y);
    assert_eq!(num(x).is_at_most(&num(y)), x <= y, "{:e} <= {:e}", x, y);
    let higher = back(&num(x).max(num(y)));
    assert!(alike(higher, x.max(y)) || higher == x.max(y), "max {:e} {:e}", x, y);
}

#[test]
fn arithmetic_rounds_as_the_machine_does() {
    for x in corners() {
        for y in corners() {
            check_pair(x, y);
        }
    }
    let mut dice = Dice(1442695040888963407);
    for _ in 0..20000 {
        let x = dice.number();
        let y = dice.number();
        check_pair(x, y);
    }
}

#[test]
fn clamping_keeps_to_the_bounds() {
    let bounds = [(0.0, 1.0), (0.1, 60.0), (-5.0, 5.0)];
    for (low, high) in bounds {
        for x in corners() {
            let held = back(&num(x).clamp(num(low), num(high)));
            assert!(alike(held, x.clamp(low, high)), "{} in {}..{}", x, low, high);
        }
    }
}

#[test]
fn rounding_to_bytes_and_up() {
    let mut dice = Dice(2862933555777941757);
    let mut all = corners();
    for _ in 0..5000 {
        all.push(dice.number());
        all.push((dice.roll() % 260000) as f64 / 1000.0);
    }
    for x in all {
        assert_eq!(num(x).round_to_byte(), x.round() as u8, "{}", x);
        assert!(alike(back(&num(x).ceil()), x.ceil()), "{}", x);
    }
}

#[test]
fn integers_and_ratios() {
    for n in [0, 1, 95000, (1 << 53) - 1, (1 << 53) + 1, u64::MAX, u64::MAX - 1024] {
        assert_eq!(back(&Real::from_u64(n)), n as f64);
    }
    assert_eq!(back(&Real::ratio(85, 100)), 0.85);
    assert_eq!(back(&Real::ratio(1, 10)), 0.1);
    assert_eq!(back(&Real::ratio(33, 100)), 0.33);
    assert_eq!(back(&Real::lowest()), f64::MIN);
    assert_eq!(back(&Real::highest()), f64::MAX);
    assert_eq!(back(&num(2.5).negate()), -2.5);
    assert_eq!(power_of_two(100), 1u128 << 100);
    assert!(matches!(num(f64::NAN).parts(), Parts::Nan));
}

#[test]
fn fixed_point_prints_like_std() {
    let mut dice = Dice(6364136223846793005);
    let mut all = corners();
    for _ in 0..1500 {
        all.push(dice.number());
        all.push((dice.roll() % 100000) as f64 / 64.0);
    }
    for x in all {
        assert_eq!(fixed(&num(x), 0), format!("{:.0}", x));
        assert_eq!(fixed(&num(x), 1), format!("{:.1}", x));
        assert_eq!(fixed(&num(x), 2), format!("{:.2}", x));
        assert_eq!(fixed(&num(x), 5), format!("{:.5}", x));
    }
}

#[test]
fn decimals_come_back_from_their_text() {
    for n in [0u64, 7, 10, 409600, u64::MAX] {
        assert_eq!(decimal(n as u128), n.to_string());
        assert_eq!(parse(&decimal(n as u128), u64::MAX), Some(n));
    }
    assert_eq!(decimal(u128::MAX), u128::MAX.to_string());
    assert_eq!(decimal_filled(5, 2), "05");
    assert_eq!(decimal_filled(123, 2), "123");
}

#[test]
fn numbers_parse_like_std() {
    let texts = [
        "", "0", "+5", "+", "-", "-1", "12a", " 12", "12 ", "0012", "18446744073709551615", "18446744073709551616",
        "99999999999999999999999", "4294967295", "4294967296", "١",
    ];
    for s in texts {
        assert_eq!(parse(s, u64::MAX), s.parse::<u64>().ok(), "{:?}", s);
        assert_eq!(parse(s, u32::MAX as u64), s.parse::<u32>().ok().map(|n| n as u64), "{:?}", s);
        assert_eq!(count(s), s.parse::<u64>().unwrap_or(0), "{:?}", s);
    }
}
