use cpu_grid::grid::{aligned_2col_grid, column_count, grid};
use cpu_grid::layout::{align_left, align_right, get_dashed_line, repeat, strip_ansi};
use cpu_grid::order::put_in_order;
use cpu_grid::table::{find, is_among, keep_only, store, Entry};
use cpu_grid::text::{
    between, bytes_in, chars_of, contains, ends_with, equal, is_before, lines, part_after_last, part_behind, replace,
    starts_with, trim, trim_trailing, words,
};

fn samples() -> Vec<&'static str> {
    vec![
        "",
        " ",
        "\n",
        "\r\n",
        "a",
        "a\n",
        "a\n\nb",
        "a\r\nb\r",
        "  two  words ",
        "\u{a0}wide\u{3000}space\u{2009}",
        "tab\tand\u{b}more\u{85}",
        "é°↓🙂",
        "model name\t: AMD Ryzen: x",
        "a:b:c:",
        "::",
        "/dev/sda1",
        "abcabcab",
    ]
}

fn strings(v: &[&str]) -> Vec<String> {
    v.iter().map(|s| s.to_string()).collect()
}

#[test]
fn cutting_up_like_std() {
    for s in samples() {
        assert_eq!(chars_of(s), s.chars().collect::<Vec<char>>());
        assert_eq!(lines(s), s.lines().map(String::from).collect::<Vec<String>>(), "{:?}", s);
        assert_eq!(words(s), s.split_whitespace().map(String::from).collect::<Vec<String>>(), "{:?}", s);
        assert_eq!(trim(s), s.trim(), "{:?}", s);
        assert_eq!(part_behind(s, ':'), s.split(':').nth(1).map(String::from), "{:?}", s);
        assert_eq!(part_after_last(s, '/'), s.split('/').last().unwrap(), "{:?}", s);
        assert_eq!(trim_trailing(s, ':'), s.trim_end_matches(':'), "{:?}", s);
        assert_eq!(bytes_in(s), s.len());
    }
}

#[test]
fn searching_like_std() {
    for s in samples() {
        for p in samples() {
            assert_eq!(contains(s, p), s.contains(p), "{:?} in {:?}", p, s);
            assert_eq!(starts_with(s, p), s.starts_with(p));
            assert_eq!(ends_with(s, p), s.ends_with(p));
            assert_eq!(equal(s, p), s == p);
            assert_eq!(is_before(s, p), s < p, "{:?} before {:?}", s, p);
            if !p.is_empty() {
                assert_eq!(replace(s, p, "<>"), s.replace(p, "<>"));
            }
        }
    }
    assert_eq!(replace("aaaa", "aa", "b"), "bb");
    assert_eq!(between("MemTotal:   16 kB\n", "MemTotal:", "kB"), Some("   16 ".to_string()));
    assert_eq!(between("MemTotal:   16 MB\n", "MemTotal:", "kB"), None);
    assert_eq!(between("other", "MemTotal:", "kB"), None);
}

#[test]
fn widths_leave_escapes_out() {
    assert_eq!(strip_ansi(""), 0);
    assert_eq!(strip_ansi("plain"), 5);
    assert_eq!(strip_ansi("\x1b[1;38;2;255;215;0mgold\x1b[0m"), 4);
    assert_eq!(strip_ansi("\x1b[1m↓↑\x1b[0m m"), 4);
    assert_eq!(strip_ansi("open \x1b[38;2"), 5);
    assert_eq!(strip_ansi("\x1b[2Jabc"), 3);
    assert_eq!(strip_ansi("a\x1b[10;20Hb\x1b[Kc"), 3);
    assert_eq!(strip_ansi("\x1b[?25lhidden\x1b[?25h"), 6);
    assert_eq!(strip_ansi("\x1b7saved\x1b8"), 5);
    assert_eq!(strip_ansi("\x1b(Bplain\x1b[m"), 5);
    assert_eq!(strip_ansi("\x1b[3\x1b[0mcut"), 3);
}

#[test]
fn padding_like_std() {
    for s in ["", "ab", "°°°", "longer than it"] {
        for w in [0, 1, 3, 9] {
            assert_eq!(align_right(s, w), format!("{:>w$}", s, w = w));
            assert_eq!(align_left(s, w), format!("{:<w$}", s, w = w));
        }
    }
    assert_eq!(repeat('-', 4), "----");
}

#[test]
fn rules_fill_the_screen() {
    assert_eq!(get_dashed_line(11, "mid"), "--- mid ---");
    assert_eq!(get_dashed_line(12, "mid"), "--- mid ----");
    assert_eq!(get_dashed_line(5, "mid"), "-----");
    assert_eq!(get_dashed_line(0, "mid"), "");
    for w in 0..60 {
        let line = get_dashed_line(w, "\x1b[1;38;2;255;215;0mMemory Heat-Map\x1b[0m");
        assert_eq!(strip_ansi(&line), w);
    }
}

#[test]
fn cells_stand_in_rows() {
    let cells = strings(&["a", "b", "c", "d", "e"]);
    assert_eq!(grid(&cells, 2), strings(&["a | b", "c | d", "e | "]));
    assert_eq!(grid(&cells, 5), strings(&["a | b | c | d | e"]));
    assert_eq!(grid(&cells, 1), strings(&["a", "b", "c", "d", "e"]));
    assert_eq!(grid(&Vec::new(), 3), Vec::<String>::new());
}

#[test]
fn columns_by_width() {
    assert_eq!(column_count(80, 16), 4);
    assert_eq!(column_count(80, 3), 3);
    assert_eq!(column_count(80, 0), 1);
    assert_eq!(column_count(16, 9), 1);
    assert_eq!(column_count(34, 9), 2);
}

#[test]
fn items_pair_up_where_they_fit() {
    let items = strings(&["aa", "bbb", "c", "d", "e"]);
    assert_eq!(aligned_2col_grid(&items, 8), strings(&["aa | bbb", "c  | d", "e"]));
    assert_eq!(aligned_2col_grid(&items, 7), strings(&["aa", "bbb | c", "d  | e"]));
    assert_eq!(aligned_2col_grid(&items, 5), items);
    let colored = strings(&["\x1b[1ma\x1b[0m", "b", "long"]);
    assert_eq!(aligned_2col_grid(&colored, 10), strings(&["\x1b[1ma\x1b[0m    | b", "long"]));
    let pair = &aligned_2col_grid(&items, 8)[0];
    assert_eq!(strip_ansi(pair), 8);
}

#[test]
fn order_is_stable_and_complete() {
    assert_eq!(put_in_order(vec![10u64, 2, 7, 2, 0]), vec![0, 2, 2, 7, 10]);
    assert_eq!(put_in_order(Vec::<u64>::new()), Vec::<u64>::new());
}

#[test]
fn tables_keep_one_row_for_each_name() {
    let mut t: Vec<Entry<u64>> = Vec::new();
    store(&mut t, "b", 1);
    store(&mut t, "a", 2);
    store(&mut t, "b", 3);
    assert_eq!(t.len(), 2);
    assert_eq!(t[find(&t, "b")].value, 3);
    assert_eq!(t[find(&t, "a")].value, 2);
    assert_eq!(find(&t, "c"), 2);
    let names = strings(&["a", "c"]);
    assert!(is_among(&names, "a"));
    assert!(!is_among(&names, "b"));
    let (kept, gone) = keep_only(t, &names);
    assert_eq!(kept.len(), 1);
    assert_eq!(kept[0].name, "a");
    assert_eq!(gone, strings(&["b"]));
}
