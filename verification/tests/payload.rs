use serde_json::Value;
use statusline::clock::{fmt_limit, LimitGauge, LimitKind};
use statusline::input::{without_bom, Effort, Model, Workspace};
use statusline::layout::{render, ContextGauge, Frame};
use statusline::style::{GREEN, ORANGE, RED, YELLOW};

const EXAMPLE_JSON: &str = r#"{"session_id":"00000000-0000-0000-0000-000000000000","cwd":"D:\\github","effort":{"level":"high"},"session_name":"Revert to previous statusline","model":{"display_name":"Opus 4.8 (1M context)"},"workspace":{"current_dir":"D:\\github","project_dir":"D:\\github","added_dirs":[]},"version":"2.1.173","output_style":{"name":"default"},"cost":{"total_cost_usd":1.1185685,"total_duration_ms":801357,"total_api_duration_ms":338179,"total_lines_added":136,"total_lines_removed":85},"context_window":{"total_input_tokens":47432,"total_output_tokens":112,"context_window_size":1000000,"current_usage":{"input_tokens":2,"output_tokens":112,"cache_creation_input_tokens":8004,"cache_read_input_tokens":39426},"used_percentage":5,"remaining_percentage":95},"exceeds_200k_tokens":false,"fast_mode":false,"thinking":{"enabled":true},"rate_limits":{"five_hour":{"used_percentage":3,"resets_at":1781225400},"seven_day":{"used_percentage":7.000000000000001,"resets_at":1781474400}}}"#;

fn strip_ansi(s: &str) -> String {
    let mut out = String::new();
    let mut chars = s.chars().peekable();
    while let Some(c) = chars.next() {
        if c == '\x1b' {
            for c2 in chars.by_ref() {
                if c2 == 'm' {
                    break;
                }
            }
        } else {
            out.push(c);
        }
    }
    out
}

fn text(v: &Value, path: &[&str]) -> Option<String> {
    let mut cur = v;
    for p in path {
        cur = cur.get(p)?;
    }
    cur.as_str().map(|s| s.to_string())
}

fn num(v: &Value, path: &[&str]) -> Option<f64> {
    let mut cur = v;
    for p in path {
        cur = cur.get(p)?;
    }
    cur.as_f64()
}

fn millions(n: f64) -> String {
    let m = n / 1_000_000.0;
    if m == m.floor() {
        format!("{}M", m as u64)
    } else {
        format!("{:.1}M", m)
    }
}

fn cells(pct: f64) -> usize {
    (pct / 100.0 * 10.0).round() as usize
}

fn ctx_color(used: f64) -> &'static str {
    if used < 50.0 {
        GREEN
    } else if used < 75.0 {
        YELLOW
    } else if used < 90.0 {
        ORANGE
    } else {
        RED
    }
}

fn limit_color(rem: f64) -> &'static str {
    if rem >= 50.0 {
        GREEN
    } else if rem >= 25.0 {
        YELLOW
    } else if rem >= 10.0 {
        ORANGE
    } else {
        RED
    }
}

fn limit(v: &Value, which: &str, label: &str, kind: LimitKind) -> Option<String> {
    let gauge = num(v, &["rate_limits", which, "used_percentage"]).map(|used| {
        let rem = 100.0 - used;
        LimitGauge {
            cells: cells(rem),
            remaining: rem.round() as i64,
            color: limit_color(rem).to_string(),
        }
    });
    let resets = num(v, &["rate_limits", which, "resets_at"]).map(|r| r as i64);
    fmt_limit(label, &gauge, resets, kind)
}

/// The frame of a payload, read as the program reads it (no git query).
fn frame_of(json: &str) -> Option<Frame> {
    let v: Value = serde_json::from_str(&without_bom(json)).ok()?;
    let used = num(&v, &["context_window", "used_percentage"]).unwrap_or(0.0);
    let tokens = num(&v, &["context_window", "total_input_tokens"])
        .or_else(|| {
            v.get("context_window")?.get("current_usage")?;
            Some(
                num(&v, &["context_window", "current_usage", "input_tokens"]).unwrap_or(0.0)
                    + num(&v, &["context_window", "current_usage", "cache_creation_input_tokens"])
                        .unwrap_or(0.0)
                    + num(&v, &["context_window", "current_usage", "cache_read_input_tokens"])
                        .unwrap_or(0.0),
            )
        })
        .unwrap_or(0.0);
    let read = num(&v, &["context_window", "current_usage", "cache_read_input_tokens"]);
    let hit = read.filter(|r| *r > 0.0).map(|r| {
        let total = num(&v, &["context_window", "current_usage", "input_tokens"]).unwrap_or(0.0)
            + num(&v, &["context_window", "current_usage", "cache_creation_input_tokens"])
                .unwrap_or(0.0)
            + r;
        (r / total * 100.0) as u32
    });
    let size = num(&v, &["context_window", "context_window_size"]).unwrap_or(0.0);
    let window_label = if size >= 1_000_000.0 { Some(millions(size)) } else { None };
    let dur = num(&v, &["cost", "total_duration_ms"]).unwrap_or(0.0);
    let has_limits = v.get("rate_limits").is_some();
    Some(Frame {
        model: v.get("model").map(|_| Model { display_name: text(&v, &["model", "display_name"]) }),
        effort: v.get("effort").map(|_| Effort { level: text(&v, &["effort", "level"]) }),
        workspace: v
            .get("workspace")
            .map(|_| Workspace { current_dir: text(&v, &["workspace", "current_dir"]) }),
        cwd: text(&v, &["cwd"]),
        window_label,
        context: ContextGauge {
            cells: cells(used),
            percent: used as u32,
            color: ctx_color(used).to_string(),
            tokens: if tokens >= 1_000_000.0 {
                millions(tokens)
            } else {
                format!("{}k", (tokens / 1000.0).round() as i64)
            },
            hit,
        },
        five_hour: if has_limits { limit(&v, "five_hour", "⏳ 5h", LimitKind::FiveHour) } else { None },
        seven_day: if has_limits { limit(&v, "seven_day", "📅 1w", LimitKind::SevenDay) } else { None },
        session_minutes: if dur > 0.0 { Some((dur / 60_000.0).floor() as u64) } else { None },
        git: None,
        cost_cents: num(&v, &["cost", "total_cost_usd"]).map(|usd| (usd * 100.0).round() as u64),
    })
}

#[test]
fn example_payload_contains_expected_segments() {
    let output = render(&frame_of(EXAMPLE_JSON).unwrap());
    let plain = strip_ansi(&output);

    assert!(plain.contains("Opus 4.8"), "missing model: {}", plain);
    assert!(plain.contains("1M"), "missing ctx label: {}", plain);
    assert!(plain.contains(" H"), "missing effort: {}", plain);

    assert!(plain.contains("5%"), "missing ctx pct: {}", plain);
    assert!(plain.contains("47k"), "missing tok count: {}", plain);
    assert!(plain.contains("(83%)"), "missing cache hit: {}", plain);

    assert!(plain.contains("D:\\github") || plain.contains("D:"), "missing folder: {}", plain);

    assert!(plain.contains("$1.12"), "missing cost: {}", plain);

    let lines: Vec<&str> = output.lines().collect();
    assert_eq!(lines.len(), 3, "expected 3 lines, got {}: {:?}", lines.len(), lines);
}

#[test]
fn no_trailing_newline() {
    let output = render(&frame_of(EXAMPLE_JSON).unwrap());
    assert!(!output.ends_with('\n'), "output has trailing newline");
}

#[test]
fn utf8_bom_payload_still_renders() {
    let bom_json = format!("\u{feff}{}", EXAMPLE_JSON);
    let output = render(&frame_of(&bom_json).unwrap());
    let plain = strip_ansi(&output);
    assert!(plain.contains("Opus 4.8"), "BOM payload produced no output: {:?}", plain);
}

#[test]
fn minimal_payload_does_not_crash() {
    let output = render(&frame_of("{}").unwrap());
    let _ = output;
}

#[test]
fn example_payload_lines() {
    let plain = strip_ansi(&render(&frame_of(EXAMPLE_JSON).unwrap()));
    let lines: Vec<&str> = plain.lines().collect();
    assert_eq!(lines[0], "🤖 Opus 4.8 1M H │ 🧠 █░░░░░░░░░ 5% 47k (83%)");
    assert!(lines[1].starts_with("⏳ 5h ██████████ 97% "));
    assert!(lines[1].contains(" │ 📅 1w █████████░ 93% "));
    assert!(lines[1].ends_with(" │ ☕ 0h 13m"));
    assert_eq!(lines[2], "📂 D:\\github │ 🌿 no git │ 💰 $1.12");
}

#[test]
fn large_window_and_token_counts() {
    let json = r#"{"model":{"display_name":"Sonnet"},"context_window":{"context_window_size":1500000,"total_input_tokens":2000000,"used_percentage":80}}"#;
    let plain = strip_ansi(&render(&frame_of(json).unwrap()));
    assert_eq!(plain, "🤖 Sonnet 1.5M │ 🧠 ████████░░ 80% 2M\n");
}

#[test]
fn token_count_falls_back_to_current_usage() {
    let json = r#"{"context_window":{"used_percentage":12,"current_usage":{"input_tokens":1000,"cache_creation_input_tokens":2000,"cache_read_input_tokens":0}}}"#;
    let plain = strip_ansi(&render(&frame_of(json).unwrap()));
    assert_eq!(plain, "🧠 █░░░░░░░░░ 12% 3k\n");
}
