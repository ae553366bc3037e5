use cpu_grid::binary64::Real;
use cpu_grid::color::{
    get_cpu_color, get_disk_capacity_color, get_exp_disk_speed_color, get_idle_color, get_net_color, get_ram_color,
    get_ratio_color, get_room_temp_color, get_swap_color, get_zswap_algo_color, lerp_color,
};
use cpu_grid::layout::strip_ansi;

type Rgb = (u8, u8, u8);

const VIOLET: &str = "\x1b[1;38;2;238;130;238m";

fn num(x: f64) -> Real {
    Real::from_bits(x.to_bits())
}

fn blend(a: Rgb, b: Rgb, t: f64) -> Rgb {
    let t = t.clamp(0.0, 1.0);
    let mix = |x: u8, y: u8| (x as f64 + (y as f64 - x as f64) * t).round() as u8;
    (mix(a.0, b.0), mix(a.1, b.1), mix(a.2, b.2))
}

fn paint(bold: bool, c: Rgb) -> String {
    if bold {
        format!("\x1b[1;38;2;{};{};{}m", c.0, c.1, c.2)
    } else {
        format!("\x1b[38;2;{};{};{}m", c.0, c.1, c.2)
    }
}

const GREEN: Rgb = (0, 200, 0);
const YELLOW: Rgb = (255, 255, 0);
const ORANGE: Rgb = (255, 165, 0);
const DARK: Rgb = (200, 30, 30);
const RED: Rgb = (255, 0, 0);

fn loads() -> Vec<f64> {
    (0..=1300).map(|i| i as f64 / 1000.0).collect()
}

#[test]
fn blends_meet_their_ends() {
    assert_eq!(lerp_color(GREEN, RED, num(0.0)), GREEN);
    assert_eq!(lerp_color(GREEN, RED, num(1.0)), RED);
    assert_eq!(lerp_color(GREEN, RED, num(-3.0)), GREEN);
    assert_eq!(lerp_color(GREEN, RED, num(9.0)), RED);
    assert_eq!(lerp_color(GREEN, YELLOW, num(0.5)), (128, 228, 0));
    for t in loads() {
        assert_eq!(lerp_color(YELLOW, DARK, num(t)), blend(YELLOW, DARK, t));
    }
}

#[test]
fn cpu_colors_over_the_load() {
    for t in loads() {
        let c = if t > 1.0 {
            VIOLET.to_string()
        } else {
            let c = if t <= 0.5 {
                blend(GREEN, YELLOW, t / 0.5)
            } else if t <= 0.7 {
                blend(YELLOW, ORANGE, (t - 0.5) / 0.2)
            } else if t <= 0.85 {
                blend(ORANGE, DARK, (t - 0.7) / 0.15)
            } else {
                blend(DARK, RED, (t - 0.85) / 0.15)
            };
            paint(t >= 0.85, c)
        };
        assert_eq!(get_cpu_color(&num(t)), c, "{}", t);
    }
    assert_eq!(get_cpu_color(&num(1.0)), "\x1b[1;38;2;255;0;0m");
    assert_eq!(get_cpu_color(&num(-1.0)), "\x1b[38;2;0;200;0m");
}

#[test]
fn ram_and_swap_colors_over_the_load() {
    for t in loads() {
        let low = |hot: f64, width: f64, red: f64| {
            let c = if t <= 0.5 {
                blend(GREEN, YELLOW, t / 0.5)
            } else if t <= 0.7 {
                blend(YELLOW, ORANGE, (t - 0.5) / 0.2)
            } else if t <= hot {
                blend(ORANGE, DARK, (t - 0.7) / width)
            } else {
                blend(DARK, RED, (t - hot) / red)
            };
            paint(t >= hot, c)
        };
        let ram = if t >= 0.95 { VIOLET.to_string() } else { low(0.85, 0.15, 0.10) };
        let swap = if t >= 0.90 { VIOLET.to_string() } else { low(0.8, 0.1, 0.1) };
        assert_eq!(get_ram_color(&num(t)), ram, "{}", t);
        assert_eq!(get_swap_color(&num(t)), swap, "{}", t);
    }
}

#[test]
fn net_colors_over_the_load() {
    for t in loads() {
        let max = 125000000.0;
        let speed = t * max;
        let t: f64 = speed / max;
        let c = if t > 1.0 {
            VIOLET.to_string()
        } else {
            let c = if t <= 0.33 {
                blend(GREEN, YELLOW, t / 0.33)
            } else if t <= 0.66 {
                blend(YELLOW, ORANGE, (t - 0.33) / 0.33)
            } else if t <= 0.83 {
                blend(ORANGE, DARK, (t - 0.66) / 0.17)
            } else {
                blend(DARK, RED, (t - 0.83) / 0.17)
            };
            paint(t >= 0.83, c)
        };
        assert_eq!(get_net_color(&num(speed), &num(max)), c, "{}", t);
    }
    assert_eq!(get_net_color(&num(2.0), &num(0.0)), VIOLET);
    assert_eq!(get_net_color(&num(0.0), &num(-5.0)), paint(false, GREEN));
}

#[test]
fn volumes_turn_violet_when_full() {
    assert_eq!(get_disk_capacity_color(&num(0.75), false), paint(false, GREEN));
    assert_eq!(get_disk_capacity_color(&num(0.85), false), paint(false, YELLOW));
    assert_eq!(get_disk_capacity_color(&num(0.9), false), paint(true, ORANGE));
    assert_eq!(get_disk_capacity_color(&num(0.95), false), VIOLET);
    assert_eq!(get_disk_capacity_color(&num(0.65), true), paint(false, GREEN));
    assert_eq!(get_disk_capacity_color(&num(0.75), true), paint(false, YELLOW));
    assert_eq!(get_disk_capacity_color(&num(0.85), true), VIOLET);
    assert_ne!(get_disk_capacity_color(&num(0.85), false), VIOLET);
}

#[test]
fn disk_speeds_against_their_peak() {
    let peak = 1000000.0;
    assert_eq!(get_exp_disk_speed_color(&num(peak + 1.0), &num(peak)), VIOLET);
    assert_eq!(get_exp_disk_speed_color(&num(peak * 0.99), &num(peak)), "\x1b[1;31m");
    assert_eq!(get_exp_disk_speed_color(&num(0.0), &num(0.0)), paint(false, GREEN));
    assert_eq!(get_exp_disk_speed_color(&num(500.0), &num(1000.0)), paint(false, blend(GREEN, YELLOW, 0.125 / 0.4)));
    assert_eq!(
        get_exp_disk_speed_color(&num(0.9 * peak), &num(peak)),
        paint(false, blend(YELLOW, ORANGE, (0.9f64 * 0.9 * 0.9 - 0.4) / 0.4))
    );
}

#[test]
fn idle_colors_over_a_year() {
    assert_eq!(get_idle_color(0), paint(false, GREEN));
    assert_eq!(get_idle_color(7884000), paint(false, YELLOW));
    assert_eq!(get_idle_color(15768000), paint(false, ORANGE));
    assert_eq!(get_idle_color(23652000), paint(false, RED));
    assert_eq!(get_idle_color(31536000), paint(false, (238, 130, 238)));
    assert_eq!(get_idle_color(u64::MAX), paint(false, (238, 130, 238)));
}

#[test]
fn room_colors_by_degree() {
    assert_eq!(get_room_temp_color(&num(20.0)), paint(false, GREEN));
    assert_eq!(get_room_temp_color(&num(24.0)), paint(false, GREEN));
    assert_eq!(get_room_temp_color(&num(27.0)), paint(false, YELLOW));
    assert_eq!(get_room_temp_color(&num(31.0)), paint(false, ORANGE));
    assert_eq!(get_room_temp_color(&num(35.0)), paint(false, (255, 100, 100)));
    assert_eq!(get_room_temp_color(&num(40.0)), paint(false, (238, 130, 238)));
    assert_eq!(get_room_temp_color(&num(25.5)), paint(false, blend(GREEN, YELLOW, 0.5)));
}

#[test]
fn ratio_and_algorithm_colors() {
    assert_eq!(get_ratio_color(&num(0.99)), paint(false, (238, 130, 238)));
    assert_eq!(get_ratio_color(&num(1.5)), paint(false, ORANGE));
    assert_eq!(get_ratio_color(&num(2.5)), paint(false, YELLOW));
    assert_eq!(get_ratio_color(&num(4.0)), paint(false, GREEN));
    assert_eq!(get_ratio_color(&num(9.0)), paint(false, GREEN));
    assert_eq!(get_zswap_algo_color("zstd"), paint(false, GREEN));
    assert_eq!(get_zswap_algo_color("lz4"), paint(false, YELLOW));
    assert_eq!(get_zswap_algo_color("lzo"), paint(false, ORANGE));
    assert_eq!(get_zswap_algo_color("deflate"), paint(false, RED));
    assert_eq!(get_zswap_algo_color("842"), paint(false, (238, 130, 238)));
}

#[test]
fn colors_have_no_width() {
    for t in loads() {
        assert_eq!(strip_ansi(&get_cpu_color(&num(t))), 0);
        assert_eq!(strip_ansi(&get_disk_capacity_color(&num(t), true)), 0);
    }
}

#[test]
fn blends_never_go_back() {
    for (a, b) in [(GREEN, RED), (YELLOW, DARK), (RED, GREEN), (DARK, YELLOW)] {
        let mut last = a;
        for i in -5..=1010 {
            let c = lerp_color(a, b, num(i as f64 / 1000.0));
            assert!(c.0.abs_diff(b.0) <= last.0.abs_diff(b.0));
            assert!(c.1.abs_diff(b.1) <= last.1.abs_diff(b.1));
            assert!(c.2.abs_diff(b.2) <= last.2.abs_diff(b.2));
            last = c;
        }
        assert_eq!(last, b);
    }
}
