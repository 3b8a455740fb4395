use statusline::git::GitStatus;
use statusline::input::{Effort, Model, Workspace};
use statusline::layout::{current_dir, folder_label, model_name, render, ContextGauge, Frame};
use statusline::text::{fmt_i64, fmt_u64};

#[test]
fn folder_label_two_depth() {
    assert_eq!(folder_label("D:\\github\\myproject"), "github\\myproject");
    assert_eq!(folder_label("D:\\github"), "D:\\github");
    assert_eq!(folder_label("/home/user/project"), "user\\project");
}

#[test]
fn folder_label_drive_root() {
    assert_eq!(folder_label("D:"), "D:\\");
}

#[test]
fn folder_label_edges() {
    assert_eq!(folder_label("project"), "project");
    assert_eq!(folder_label("//server//share//"), "server\\share");
    assert_eq!(folder_label("/"), "/");
    assert_eq!(folder_label(""), "");
    assert_eq!(folder_label("é:"), "é:");
}

#[test]
fn model_name_drops_remark() {
    assert_eq!(model_name("Opus 4.8 (1M context)"), "Opus 4.8");
    assert_eq!(model_name("  Sonnet  "), "Sonnet");
    assert_eq!(model_name("a (b) (c)"), "a (b)");
    assert_eq!(model_name("(x)"), "");
    assert_eq!(model_name(""), "");
}

#[test]
fn current_dir_prefers_workspace() {
    let ws = Some(Workspace { current_dir: Some("D:\\github\\".to_string()) });
    assert_eq!(current_dir(&ws, &Some("C:\\other".to_string())), "D:\\github");
    let ws = Some(Workspace { current_dir: None });
    assert_eq!(current_dir(&ws, &Some("/tmp//".to_string())), "/tmp");
    assert_eq!(current_dir(&None, &None), "");
    let ws = Some(Workspace { current_dir: Some("".to_string()) });
    assert_eq!(current_dir(&ws, &Some("/x".to_string())), "");
}

#[test]
fn numerals() {
    assert_eq!(fmt_u64(0), "0");
    assert_eq!(fmt_u64(47), "47");
    assert_eq!(fmt_u64(u64::MAX), u64::MAX.to_string());
    assert_eq!(fmt_i64(-5), "-5");
    assert_eq!(fmt_i64(i64::MIN), i64::MIN.to_string());
}

fn strip_ansi(s: &str) -> String {
    let mut out = String::new();
    let mut chars = s.chars();
    while let Some(c) = chars.next() {
        if c == '\x1b' {
            for c2 in chars.by_ref() {
                if c2 == 'm' {
                    break;
                }
            }
        } else {
            out.push(c);
        }
    }
    out
}

fn example_frame() -> Frame {
    Frame {
        model: Some(Model { display_name: Some("Opus 4.8 (1M context)".to_string()) }),
        effort: Some(Effort { level: Some("high".to_string()) }),
        workspace: Some(Workspace { current_dir: Some("D:\\github".to_string()) }),
        cwd: Some("D:\\github".to_string()),
        window_label: Some("1M".to_string()),
        context: ContextGauge {
            cells: 1,
            percent: 5,
            color: "38;5;71".to_string(),
            tokens: "47k".to_string(),
            hit: Some(83),
        },
        five_hour: Some("⏳ 5h x".to_string()),
        seven_day: None,
        session_minutes: Some(13),
        git: None,
        cost_cents: Some(112),
    }
}

#[test]
fn render_example() {
    let out = render(&example_frame());
    let plain = strip_ansi(&out);
    assert_eq!(
        plain,
        "🤖 Opus 4.8 1M H │ 🧠 █░░░░░░░░░ 5% 47k (83%)\n⏳ 5h x │ ☕ 0h 13m\n📂 D:\\github │ 🌿 no git │ 💰 $1.12"
    );
    assert_eq!(out.lines().count(), 3);
    assert!(!out.ends_with('\n'));
}

#[test]
fn render_git_marks() {
    let mut f = example_frame();
    f.five_hour = None;
    f.session_minutes = None;
    f.git = Some(GitStatus {
        branch: "main".to_string(),
        ahead: 1,
        behind: 2,
        staged: 3,
        modified: 0,
        untracked: 4,
    });
    let plain = strip_ansi(&render(&f));
    assert_eq!(
        plain,
        "🤖 Opus 4.8 1M H │ 🧠 █░░░░░░░░░ 5% 47k (83%)\n📂 D:\\github │ 🌿 main ✚3 ?4 │ ↑1 ↓2 │ 💰 $1.12"
    );
    f.git = Some(GitStatus {
        branch: "main".to_string(),
        ahead: 0,
        behind: 0,
        staged: 0,
        modified: 0,
        untracked: 0,
    });
    let plain = strip_ansi(&render(&f));
    assert!(plain.ends_with("📂 D:\\github │ 🌿 main ✓ │ 💰 $1.12"));
}

#[test]
fn render_minimal_frame() {
    let f = Frame {
        model: None,
        effort: None,
        workspace: None,
        cwd: None,
        window_label: None,
        context: ContextGauge {
            cells: 0,
            percent: 0,
            color: "38;5;71".to_string(),
            tokens: "0k".to_string(),
            hit: None,
        },
        five_hour: None,
        seven_day: None,
        session_minutes: None,
        git: None,
        cost_cents: None,
    };
    let plain = strip_ansi(&render(&f));
    assert_eq!(plain, "🧠 ░░░░░░░░░░ 0% 0k\n");
}
