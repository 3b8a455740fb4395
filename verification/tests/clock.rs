use chrono::TimeZone;
use statusline::clock::{
    days_until, fmt_limit, limit_segment, reset_time, LimitGauge, LimitKind, ResetTime,
};

fn gauge(cells: usize, remaining: i64) -> LimitGauge {
    LimitGauge { cells, remaining, color: "38;5;71".to_string() }
}

#[test]
fn limit_segment_without_reset() {
    let s = limit_segment("⏳ 5h", &gauge(10, 97), &None);
    assert_eq!(s, "⏳ 5h \x1b[38;5;71m██████████ 97%\x1b[0m");
}

#[test]
fn limit_segment_with_reset() {
    let r = Some(ResetTime { clock: "09:30".to_string(), days: None });
    let s = limit_segment("⏳ 5h", &gauge(9, 93), &r);
    assert_eq!(s, "⏳ 5h \x1b[38;5;71m█████████░ 93%\x1b[0m\x1b[38;5;240m 09:30\x1b[0m");
    let r = Some(ResetTime { clock: "17:05".to_string(), days: Some(-2) });
    let s = limit_segment("📅 1w", &gauge(0, -4), &r);
    assert_eq!(s, "📅 1w \x1b[38;5;71m░░░░░░░░░░ -4%\x1b[0m\x1b[38;5;240m -2d 17:05\x1b[0m");
}

#[test]
fn fmt_limit_needs_a_gauge() {
    assert_eq!(fmt_limit("⏳ 5h", &None, Some(1781225400), LimitKind::FiveHour), None);
    assert_eq!(
        fmt_limit("⏳ 5h", &Some(gauge(10, 97)), None, LimitKind::FiveHour).unwrap(),
        "⏳ 5h \x1b[38;5;71m██████████ 97%\x1b[0m"
    );
}

fn is_clock(s: &str) -> bool {
    let b = s.as_bytes();
    b.len() == 5
        && b[2] == b':'
        && b.iter().enumerate().all(|(i, c)| i == 2 || c.is_ascii_digit())
        && (b[0] - b'0') * 10 + (b[1] - b'0') < 24
        && (b[3] - b'0') * 10 + (b[4] - b'0') < 60
}

#[test]
fn fmt_limit_shows_local_reset_time() {
    let s = fmt_limit("⏳ 5h", &Some(gauge(10, 97)), Some(1781225400), LimitKind::FiveHour).unwrap();
    let head = "⏳ 5h \x1b[38;5;71m██████████ 97%\x1b[0m\x1b[38;5;240m ";
    assert!(s.starts_with(head));
    assert!(s.ends_with("\x1b[0m"));
    let clock = &s[head.len()..s.len() - 4];
    assert!(is_clock(clock), "{clock:?}");

    let s = fmt_limit("📅 1w", &Some(gauge(10, 93)), Some(1781474400), LimitKind::SevenDay).unwrap();
    let head = "📅 1w \x1b[38;5;71m██████████ 93%\x1b[0m\x1b[38;5;240m ";
    assert!(s.starts_with(head));
    let note = &s[head.len()..s.len() - 4];
    let (days, clock) = note.split_once("d ").unwrap();
    assert!(days.parse::<i64>().is_ok());
    assert!(is_clock(clock), "{clock:?}");
}

#[test]
fn fmt_limit_out_of_range_reset_is_left_out() {
    let s = fmt_limit("⏳ 5h", &Some(gauge(3, 30)), Some(i64::MAX), LimitKind::FiveHour).unwrap();
    assert_eq!(s, "⏳ 5h \x1b[38;5;71m███░░░░░░░ 30%\x1b[0m");
}

#[test]
fn reset_at_the_far_end_of_the_calendar() {
    // The last day chrono can represent: its local date stays in range in
    // zones at or west of UTC.
    let secs = 8_210_266_750_000;
    let s = fmt_limit("⏳ 5h", &Some(gauge(3, 30)), Some(secs), LimitKind::FiveHour).unwrap();
    let head = "⏳ 5h \x1b[38;5;71m███░░░░░░░ 30%\x1b[0m\x1b[38;5;240m ";
    assert!(s.starts_with(head));
    assert!(is_clock(&s[head.len()..s.len() - 4]));
    let s = fmt_limit("📅 1w", &Some(gauge(3, 30)), Some(secs), LimitKind::SevenDay).unwrap();
    let head = "📅 1w \x1b[38;5;71m███░░░░░░░ 30%\x1b[0m\x1b[38;5;240m ";
    if chrono::Local::now().offset().local_minus_utc() <= 0 {
        assert!(s.starts_with(head));
        let (days, clock) = s[head.len()..s.len() - 4].split_once("d ").unwrap();
        assert!(days.parse::<i64>().unwrap() > 0);
        assert!(is_clock(clock), "{clock:?}");
    }
}

#[test]
fn days_until_counts_days() {
    assert_eq!(days_until(739000, 738995), 5);
    assert_eq!(days_until(738995, 739000), -5);
    assert_eq!(days_until(i32::MIN, i32::MAX), -4294967295);
}

#[test]
fn reset_note_shows_the_reset_instant() {
    let t = 1781225400;
    let s = fmt_limit("⏳ 5h", &Some(gauge(10, 97)), Some(t), LimitKind::FiveHour).unwrap();
    let expected = chrono::Local.timestamp_opt(t, 0).unwrap().format("%H:%M").to_string();
    assert!(s.ends_with(&format!("\x1b[38;5;240m {}\x1b[0m", expected)), "{s:?}");
}

#[test]
fn reset_time_wiring() {
    let five = reset_time(Some("09:30".to_string()), None, LimitKind::FiveHour).unwrap();
    assert_eq!((five.clock.as_str(), five.days), ("09:30", None));
    let week =
        reset_time(Some("17:05".to_string()), Some((739005, 739000)), LimitKind::SevenDay).unwrap();
    assert_eq!((week.clock.as_str(), week.days), ("17:05", Some(5)));
    assert!(reset_time(Some("17:05".to_string()), None, LimitKind::SevenDay).is_none());
    assert!(reset_time(None, Some((1, 0)), LimitKind::SevenDay).is_none());
    assert!(reset_time(None, None, LimitKind::FiveHour).is_none());
}
