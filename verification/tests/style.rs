use statusline::style::{
    bar_from_cells, effort_short, fmt_cents, hit_color, paint, sep, GREEN, MUTED, YELLOW,
};

#[test]
fn effort_mapping() {
    assert_eq!(effort_short("high"), Some(("H", "38;5;71")));
    assert_eq!(effort_short("ultracode"), Some(("U", "1;38;5;205")));
    assert_eq!(effort_short("unknown"), None);
}

#[test]
fn effort_levels_all() {
    assert_eq!(effort_short("low"), Some(("L", "38;5;240")));
    assert_eq!(effort_short("medium"), Some(("M", "38;5;109")));
    assert_eq!(effort_short("xhigh"), Some(("X", "38;5;179")));
    assert_eq!(effort_short("max"), Some(("A", "38;5;208")));
    assert_eq!(effort_short("High"), None);
    assert_eq!(effort_short(""), None);
}

#[test]
fn paint_wraps_in_escapes() {
    assert_eq!(paint("hi", "38;5;71"), "\x1b[38;5;71mhi\x1b[0m");
    assert_eq!(sep(), "\x1b[38;5;240m │ \x1b[0m");
}

#[test]
fn bar_from_cells_bounds() {
    assert_eq!(bar_from_cells(0), "░░░░░░░░░░");
    assert_eq!(bar_from_cells(10), "██████████");
    assert_eq!(bar_from_cells(5), "█████░░░░░");
    assert_eq!(bar_from_cells(1), "█░░░░░░░░░");
    assert_eq!(bar_from_cells(9), "█████████░");
    assert_eq!(bar_from_cells(250), "██████████");
}

#[test]
fn fmt_cents_cases() {
    assert_eq!(fmt_cents(112), "$1.12");
    assert_eq!(fmt_cents(778), "$7.78");
    assert_eq!(fmt_cents(42), "$0.42");
    assert_eq!(fmt_cents(123456), "$1,234.56");
    assert_eq!(fmt_cents(0), "$0.00");
    assert_eq!(fmt_cents(100000000), "$1,000,000.00");
    assert_eq!(fmt_cents(u64::MAX), "$184,467,440,737,095,516.15");
}

#[test]
fn hit_color_thresholds() {
    assert_eq!(hit_color(100), GREEN);
    assert_eq!(hit_color(75), GREEN);
    assert_eq!(hit_color(74), YELLOW);
    assert_eq!(hit_color(40), YELLOW);
    assert_eq!(hit_color(39), MUTED);
    assert_eq!(hit_color(0), MUTED);
}

/// The gauge of a percentage: the cells rounded from the float, as the
/// program computes them, then drawn by the library.
fn bar_str(pct: f64) -> String {
    bar_from_cells((pct / 100.0 * 10.0).round() as usize)
}

/// An amount in dollars: rounded to cents as the program does, then written
/// by the library.
fn fmt_cost(usd: f64) -> String {
    fmt_cents((usd * 100.0).round() as u64)
}

#[test]
fn bar_str_bounds() {
    assert_eq!(bar_str(0.0), "░░░░░░░░░░");
    assert_eq!(bar_str(100.0), "██████████");
    assert_eq!(bar_str(50.0), "█████░░░░░");
    assert_eq!(bar_str(10.0), "█░░░░░░░░░");
    assert_eq!(bar_str(90.0), "█████████░");
}

#[test]
fn fmt_cost_cases() {
    assert_eq!(fmt_cost(1.1185685), "$1.12");
    assert_eq!(fmt_cost(7.78), "$7.78");
    assert_eq!(fmt_cost(0.42), "$0.42");
    assert_eq!(fmt_cost(1234.56), "$1,234.56");
}
