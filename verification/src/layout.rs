//! The segments of the status line and how they are laid out.
use vstd::prelude::*;
use crate::git::{GitStatus, GitSummary};
use crate::input::{Effort, Model, Workspace};
use crate::style::{
    bar, bar_from_cells, effort_code, effort_short, fmt_cents, hit_code, hit_color, money, painted,
    push_painted, sep, BLUE, CYAN, GOLD, GREEN, MAGENTA, MUTED, ORANGE, PEACH, PURPLE, SKY, WHITE,
    YELLOW,
};
use crate::text::{
    chars_of, dec, is_ws, push_char, push_chars, push_dec, string_of, trim, trim_bounds, trim_end,
    trim_start,
};

verus! {

// ---------------------------------------------------------------- model name

/// Index of the last `c` in `s`.
pub open spec fn last_index_of(s: Seq<char>, c: char) -> Option<int>
    decreases s.len(),
{
    if s.len() == 0 {
        None
    } else if s.last() == c {
        Some(s.len() - 1)
    } else {
        last_index_of(s.drop_last(), c)
    }
}

/// The display name trimmed, and cut before its last `(` (which drops a
/// trailing remark such as ` (1M context)`), trimmed again.
pub open spec fn model_label(raw: Seq<char>) -> Seq<char> {
    let s = trim(raw);
    match last_index_of(s, '(') {
        Some(p) => trim(s.take(p)),
        None => s,
    }
}

proof fn lemma_last_index_of_at(s: Seq<char>, c: char, k: int)
    requires
        -1 <= k < s.len(),
        forall|m: int| k < m < s.len() ==> #[trigger] s[m] != c,
        k >= 0 ==> s[k] == c,
    ensures
        last_index_of(s, c) == (if k >= 0 { Some(k) } else { None::<int> }),
    decreases s.len(),
{
    if s.len() > 0 && k < s.len() - 1 {
        let t = s.drop_last();
        assert forall|m: int| k < m < t.len() implies #[trigger] t[m] != c by {
            assert(t[m] == s[m]);
        }
        lemma_last_index_of_at(t, c, k);
    }
}

/// The model's name as the status line shows it.
pub fn model_name(raw: &str) -> (r: String)
    ensures
        r@ == model_label(raw@),
{
    let v = chars_of(raw);
    let (a, b) = trim_bounds(&v, 0, v.len());
    assert(v@.subrange(0, v@.len() as int) =~= v@);
    let ghost s = v@.subrange(a as int, b as int);
    let mut k = b;
    while k > a && v[k - 1] != '('
        invariant
            a <= k <= b <= v@.len(),
            s == v@.subrange(a as int, b as int),
            forall|m: int| k <= m < b ==> #[trigger] v@[m] != '(',
        decreases k - a,
    {
        k -= 1;
    }
    proof {
        assert forall|m: int| k - a <= m < s.len() implies #[trigger] s[m] != '(' by {
            assert(s[m] == v@[m + a]);
        }
        lemma_last_index_of_at(s, '(', k - a - 1);
    }
    if k > a {
        let (c, d) = trim_bounds(&v, a, k - 1);
        assert(s.take(k - 1 - a) =~= v@.subrange(a as int, k - 1));
        string_of(&v, c, d)
    } else {
        string_of(&v, a, b)
    }
}

} // verus!

verus! {

// ---------------------------------------------------------------- folder

/// A path separator, Windows or Unix.
pub open spec fn is_sep(c: char) -> bool {
    c == '\\' || c == '/'
}

/// `s` without trailing separators (`trim_end_matches(['\\', '/'])`).
pub open spec fn trim_seps_end(s: Seq<char>) -> Seq<char>
    decreases s.len(),
{
    if s.len() > 0 && is_sep(s.last()) {
        trim_seps_end(s.drop_last())
    } else {
        s
    }
}

/// Index of the first separator in `s`, or its length.
pub open spec fn sep_end(s: Seq<char>) -> nat
    decreases s.len(),
{
    if s.len() == 0 || is_sep(s[0]) {
        0
    } else {
        1 + sep_end(s.drop_first())
    }
}

pub proof fn lemma_sep_end_bound(s: Seq<char>)
    ensures
        sep_end(s) <= s.len(),
        s.len() > 0 && !is_sep(s[0]) ==> sep_end(s) >= 1,
    decreases s.len(),
{
    if s.len() > 0 && !is_sep(s[0]) {
        lemma_sep_end_bound(s.drop_first());
    }
}

/// The non-empty components of a path, split at either separator.
pub open spec fn segments(s: Seq<char>) -> Seq<Seq<char>>
    decreases s.len(),
{
    if s.len() == 0 {
        seq![]
    } else if is_sep(s[0]) {
        segments(s.drop_first())
    } else {
        proof {
            lemma_sep_end_bound(s);
        }
        let e = sep_end(s);
        seq![s.take(e as int)] + segments(s.skip(e as int))
    }
}

/// A drive name such as `D:` (two bytes, the second a colon).
pub open spec fn is_drive(s: Seq<char>) -> bool {
    s.len() == 2 && s[1] == ':' && s[0] < '\u{80}'
}

/// The last two components of a path joined by `\`; a lone drive name gets
/// its root `\`; a path of separators only stays as it is. (Two components
/// joined are at least three bytes long, so the drive rule, which asks for
/// two bytes, never applies to them.)
pub open spec fn folder_of(cur: Seq<char>) -> Seq<char> {
    let p = segments(cur);
    let n = p.len();
    if n >= 2 {
        p[n - 2] + seq!['\\'] + p[n - 1]
    } else if n == 1 {
        if is_drive(p[0]) {
            p[0] + seq!['\\']
        } else {
            p[0]
        }
    } else {
        cur
    }
}

proof fn lemma_sep_end_at(s: Seq<char>, k: int)
    requires
        0 <= k <= s.len(),
        forall|m: int| 0 <= m < k ==> !is_sep(#[trigger] s[m]),
        k == s.len() || is_sep(s[k]),
    ensures
        sep_end(s) == k,
    decreases k,
{
    if k > 0 {
        let t = s.drop_first();
        assert forall|m: int| 0 <= m < k - 1 implies !is_sep(#[trigger] t[m]) by {
            assert(t[m] == s[m + 1]);
        }
        lemma_sep_end_at(t, k - 1);
    }
}

/// The label of the folder `cur`: its last two components, joined by `\`.
pub fn folder_label(cur: &str) -> (r: String)
    ensures
        r@ == folder_of(cur@),
{
    let v = chars_of(cur);
    let n = v.len();
    let ghost mut got: Seq<Seq<char>> = seq![];
    let mut count: usize = 0;
    let mut last: (usize, usize) = (0, 0);
    let mut prev: (usize, usize) = (0, 0);
    let mut k: usize = 0;
    assert(v@.subrange(0, n as int) =~= v@);
    while k < n
        invariant
            0 <= k <= n == v@.len(),
            got + segments(v@.subrange(k as int, n as int)) == segments(v@),
            count == got.len(),
            count <= k,
            count >= 1 ==> last.0 <= last.1 <= n && got[count - 1] == v@.subrange(
                last.0 as int,
                last.1 as int,
            ),
            count >= 2 ==> prev.0 <= prev.1 <= n && got[count - 2] == v@.subrange(
                prev.0 as int,
                prev.1 as int,
            ),
        decreases n - k,
    {
        let ghost rest = v@.subrange(k as int, n as int);
        if v[k] == '\\' || v[k] == '/' {
            assert(rest.drop_first() =~= v@.subrange(k + 1, n as int));
            k += 1;
        } else {
            let mut e = k;
            while e < n && !(v[e] == '\\' || v[e] == '/')
                invariant
                    k <= e <= n == v@.len(),
                    forall|m: int| k <= m < e ==> !is_sep(#[trigger] v@[m]),
                decreases n - e,
            {
                e += 1;
            }
            proof {
                assert forall|m: int| 0 <= m < e - k implies !is_sep(#[trigger] rest[m]) by {
                    assert(rest[m] == v@[m + k]);
                }
                lemma_sep_end_at(rest, e - k);
                assert(rest.take(e - k) =~= v@.subrange(k as int, e as int));
                assert(rest.skip(e - k) =~= v@.subrange(e as int, n as int));
                assert(got + segments(rest) =~= got.push(v@.subrange(k as int, e as int))
                    + segments(v@.subrange(e as int, n as int)));
                got = got.push(v@.subrange(k as int, e as int));
            }
            count += 1;
            prev = last;
            last = (k, e);
            k = e;
        }
    }
    assert(v@.subrange(n as int, n as int) =~= Seq::<char>::empty());
    assert(got =~= segments(v@));
    if count >= 2 {
        let mut r = string_of(&v, prev.0, prev.1);
        push_char(&mut r, '\\');
        push_chars(&mut r, &v, last.0, last.1);
        r
    } else if count == 1 {
        let mut r = string_of(&v, last.0, last.1);
        if last.1 - last.0 == 2 && v[last.0 + 1] == ':' && '\u{80}' > v[last.0] {
            push_char(&mut r, '\\');
        }
        r
    } else {
        string_of(&v, 0, n)
    }
}

} // verus!

verus! {

// ---------------------------------------------------------------- joining

/// The views of a list of strings.
pub open spec fn views(list: Seq<String>) -> Seq<Seq<char>> {
    list.map_values(|s: String| s@)
}

/// The view of an optional string.
pub open spec fn opt_view(o: Option<String>) -> Option<Seq<char>> {
    match o {
        Some(s) => Some(s@),
        None => None,
    }
}

/// The pieces of `list` with `sep` between each two (`[String]::join`).
pub open spec fn joined(list: Seq<Seq<char>>, sep: Seq<char>) -> Seq<char>
    decreases list.len(),
{
    if list.len() == 0 {
        seq![]
    } else if list.len() == 1 {
        list[0]
    } else {
        joined(list.drop_last(), sep) + sep + list.last()
    }
}

/// Joins `list` with `sep` between each two pieces.
pub fn join(list: &Vec<String>, sep: &str) -> (r: String)
    ensures
        r@ == joined(views(list@), sep@),
{
    let mut r = String::new();
    let n = list.len();
    let mut i: usize = 0;
    while i < n
        invariant
            0 <= i <= n == list@.len(),
            r@ == joined(views(list@).take(i as int), sep@),
        decreases n - i,
    {
        let ghost l = views(list@).take(i + 1);
        assert(l.drop_last() =~= views(list@).take(i as int));
        if i > 0 {
            r.append(sep);
        } else {
            assert(views(list@).take(0) =~= Seq::<Seq<char>>::empty());
        }
        r.append(list[i].as_str());
        i += 1;
    }
    assert(views(list@).take(n as int) =~= views(list@));
    r
}

// ---------------------------------------------------------------- folder

/// The directory the session is in: the workspace's, or else the `cwd`
/// field, or else nothing.
pub open spec fn chosen_dir(workspace: Option<Workspace>, cwd: Option<String>) -> Seq<char> {
    match workspace {
        Some(w) if w.current_dir is Some => w.current_dir->0@,
        _ => match cwd {
            Some(c) => c@,
            None => seq![],
        },
    }
}

/// The directory with trailing separators taken off.
pub open spec fn dir_of(workspace: Option<Workspace>, cwd: Option<String>) -> Seq<char> {
    trim_seps_end(chosen_dir(workspace, cwd))
}

/// The session's directory, without trailing separators.
pub fn current_dir(workspace: &Option<Workspace>, cwd: &Option<String>) -> (r: String)
    ensures
        r@ == dir_of(*workspace, *cwd),
{
    let chosen: Option<&String> = match workspace {
        Some(w) if w.current_dir.is_some() => w.current_dir.as_ref(),
        _ => cwd.as_ref(),
    };
    let v: Vec<char> = match chosen {
        Some(c) => chars_of(c.as_str()),
        None => Vec::new(),
    };
    assert(v@ =~= chosen_dir(*workspace, *cwd));
    assert(v@.take(v@.len() as int) =~= v@);
    let mut e = v.len();
    while e > 0 && (v[e - 1] == '\\' || v[e - 1] == '/')
        invariant
            0 <= e <= v@.len(),
            trim_seps_end(v@.take(e as int)) == trim_seps_end(v@),
        decreases e,
    {
        assert(v@.take(e as int).drop_last() =~= v@.take(e - 1));
        e -= 1;
    }
    assert(v@.take(v@.len() as int) =~= v@);
    assert(v@.subrange(0, e as int) =~= v@.take(e as int));
    string_of(&v, 0, e)
}

} // verus!

verus! {

// ---------------------------------------------------------------- git

/// `symbol` followed by the number `n`, painted in `code`.
pub open spec fn counted(symbol: Seq<char>, n: nat, code: Seq<char>) -> Seq<char> {
    painted(symbol + dec(n), code)
}

/// The marks of a dirty tree: staged, modified and untracked counts that
/// are not zero.
pub open spec fn change_marks(g: GitSummary) -> Seq<Seq<char>> {
    (if g.staged > 0 { seq![counted("✚"@, g.staged, CYAN@)] } else { seq![] }) + (if g.modified
        > 0 {
        seq![counted("●"@, g.modified, YELLOW@)]
    } else {
        seq![]
    }) + (if g.untracked > 0 { seq![counted("?"@, g.untracked, MUTED@)] } else { seq![] })
}

/// A tree with nothing staged, modified or untracked.
pub open spec fn is_clean(g: GitSummary) -> bool {
    g.staged == 0 && g.modified == 0 && g.untracked == 0
}

/// The branch, then a check mark for a clean tree or its change marks.
pub open spec fn branch_text(g: GitSummary) -> Seq<char> {
    "🌿 "@ + painted(g.branch, PURPLE@) + seq![' '] + (if is_clean(g) {
        painted("✓"@, GREEN@)
    } else {
        joined(change_marks(g), " "@)
    })
}

/// Commits ahead of and behind the upstream, those that are not zero.
pub open spec fn sync_marks(g: GitSummary) -> Seq<Seq<char>> {
    (if g.ahead > 0 { seq![counted("↑"@, g.ahead, SKY@)] } else { seq![] }) + (if g.behind > 0 {
        seq![counted("↓"@, g.behind, ORANGE@)]
    } else {
        seq![]
    })
}

/// The summary of an optional status.
pub open spec fn opt_summary(git: Option<GitStatus>) -> Option<GitSummary> {
    match git {
        Some(g) => Some(g@),
        None => None,
    }
}

/// The git segments: branch and changes, then the sync marks when the branch
/// is ahead or behind; or `no git` outside a repository.
pub open spec fn git_segments(git: Option<GitSummary>) -> Seq<Seq<char>> {
    match git {
        Some(g) => seq![branch_text(g)] + (if g.ahead > 0 || g.behind > 0 {
            seq![joined(sync_marks(g), " "@)]
        } else {
            seq![]
        }),
        None => seq![painted("🌿 no git"@, MUTED@)],
    }
}

fn counted_mark(symbol: &str, n: u32, code: &str) -> (r: String)
    ensures
        r@ == counted(symbol@, n as nat, code@),
{
    let mut inner = String::from_str(symbol);
    push_dec(&mut inner, n as u64);
    let mut r = String::new();
    push_painted(&mut r, inner.as_str(), code);
    assert(r@ =~= counted(symbol@, n as nat, code@));
    r
}

proof fn lemma_views_push(v: Seq<String>, s: String)
    ensures
        views(v.push(s)) == views(v).push(s@),
{
    assert(views(v.push(s)) =~= views(v).push(s@));
}

/// Appends the git segments of `git`.
fn push_git_segments(out: &mut Vec<String>, git: &Option<GitStatus>)
    ensures
        views(final(out)@) == views(old(out)@) + git_segments(opt_summary(*git)),
{
    match git {
        Some(g) => {
            let ghost gs = g@;
            let mut t = String::from_str("🌿 ");
            push_painted(&mut t, g.branch.as_str(), PURPLE);
            push_char(&mut t, ' ');
            if g.staged == 0 && g.modified == 0 && g.untracked == 0 {
                push_painted(&mut t, "✓", GREEN);
            } else {
                let mut marks: Vec<String> = Vec::new();
                if g.staged > 0 {
                    marks.push(counted_mark("✚", g.staged, CYAN));
                }
                if g.modified > 0 {
                    marks.push(counted_mark("●", g.modified, YELLOW));
                }
                if g.untracked > 0 {
                    marks.push(counted_mark("?", g.untracked, MUTED));
                }
                assert(views(marks@) =~= change_marks(gs));
                let joined_marks = join(&marks, " ");
                t.append(joined_marks.as_str());
            }
            assert(t@ =~= branch_text(gs));
            let ghost before = out@;
            out.push(t);
            proof {
                lemma_views_push(before, t);
            }
            if g.ahead > 0 || g.behind > 0 {
                let mut ab: Vec<String> = Vec::new();
                if g.ahead > 0 {
                    ab.push(counted_mark("↑", g.ahead, SKY));
                }
                if g.behind > 0 {
                    ab.push(counted_mark("↓", g.behind, ORANGE));
                }
                assert(views(ab@) =~= sync_marks(gs));
                let s = join(&ab, " ");
                let ghost mid = out@;
                out.push(s);
                proof {
                    lemma_views_push(mid, s);
                }
            }
            assert(views(out@) =~= views(old(out)@) + git_segments(opt_summary(*git)));
        },
        None => {
            let s = crate::style::paint("🌿 no git", MUTED);
            let ghost before = out@;
            out.push(s);
            proof {
                lemma_views_push(before, s);
            }
            assert(views(out@) =~= views(old(out)@) + git_segments(opt_summary(*git)));
        },
    }
}

} // verus!

verus! {

// ---------------------------------------------------------------- the frame

/// The context-window gauge: `cells` full cells of the bar, the whole
/// percentage used, the colour both are shown in, the token count as text,
/// and the cache hit rate when cache reads happened.
pub struct ContextGauge {
    pub cells: usize,
    pub percent: u32,
    pub color: String,
    pub tokens: String,
    pub hit: Option<u32>,
}

/// Everything one status line is drawn from.
pub struct Frame {
    pub model: Option<Model>,
    pub effort: Option<Effort>,
    pub workspace: Option<Workspace>,
    pub cwd: Option<String>,
    /// The size of a large context window, such as `1M`.
    pub window_label: Option<String>,
    pub context: ContextGauge,
    /// The five-hour rate-limit segment, when there is one.
    pub five_hour: Option<String>,
    /// The weekly rate-limit segment, when there is one.
    pub seven_day: Option<String>,
    /// Whole minutes of the session, when it has lasted at all.
    pub session_minutes: Option<u64>,
    /// The repository state of the folder; read only when there is a folder.
    pub git: Option<GitStatus>,
    /// The session's cost in whole cents, when known.
    pub cost_cents: Option<u64>,
}

/// The model's display name, or nothing.
pub open spec fn raw_model(f: Frame) -> Seq<char> {
    match f.model {
        Some(m) if m.display_name is Some => m.display_name->0@,
        _ => seq![],
    }
}

/// The effort level, when given.
pub open spec fn effort_level(f: Frame) -> Option<Seq<char>> {
    match f.effort {
        Some(e) => opt_view(e.level),
        None => None,
    }
}

/// The model segment: robot, name, window size and effort letter; none for
/// an empty name.
pub open spec fn model_segment(f: Frame) -> Seq<Seq<char>> {
    let name = model_label(raw_model(f));
    if name.len() == 0 {
        seq![]
    } else {
        seq![
            "🤖 "@ + painted(name, ORANGE@) + (match f.window_label {
                Some(l) => painted(seq![' '] + l@, MAGENTA@),
                None => seq![],
            }) + (match effort_level(f) {
                Some(l) => match effort_code(l) {
                    Some((s, c)) => seq![' '] + painted(s, c),
                    None => seq![],
                },
                None => seq![],
            }),
        ]
    }
}

/// The context segment: brain, gauge and percentage, token count, and the
/// cache hit rate.
pub open spec fn context_segment(c: ContextGauge) -> Seq<char> {
    "🧠 "@ + painted(bar(c.cells as nat) + seq![' '] + dec(c.percent as nat) + seq!['%'], c.color@)
        + seq![' '] + painted(c.tokens@, WHITE@) + (match c.hit {
        Some(h) => seq![' '] + painted(seq!['('] + dec(h as nat) + "%)"@, hit_code(h as nat)),
        None => seq![],
    })
}

/// The session length as hours and minutes.
pub open spec fn session_segment(minutes: nat) -> Seq<char> {
    "☕ "@ + painted(dec(minutes / 60) + "h "@ + dec(minutes % 60) + seq!['m'], PEACH@)
}

/// The session cost.
pub open spec fn cost_segment(cents: nat) -> Seq<char> {
    painted("💰 "@ + money(cents), GOLD@)
}

/// The segments of the work line: folder and git (when there is a folder),
/// then the cost.
pub open spec fn work_segments(f: Frame) -> Seq<Seq<char>> {
    let cur = dir_of(f.workspace, f.cwd);
    (if cur.len() > 0 {
        seq![painted("📂 "@ + folder_of(cur), BLUE@)] + git_segments(opt_summary(f.git))
    } else {
        seq![]
    }) + (match f.cost_cents {
        Some(c) => seq![cost_segment(c as nat)],
        None => seq![],
    })
}

/// The segments of the model line.
pub open spec fn model_segments(f: Frame) -> Seq<Seq<char>> {
    model_segment(f) + seq![context_segment(f.context)]
}

/// The segments of the limits line: the rate limits, then the session time.
pub open spec fn limit_segments(f: Frame) -> Seq<Seq<char>> {
    (match f.five_hour {
        Some(s) => seq![s@],
        None => seq![],
    }) + (match f.seven_day {
        Some(s) => seq![s@],
        None => seq![],
    }) + (match f.session_minutes {
        Some(m) => seq![session_segment(m as nat)],
        None => seq![],
    })
}

/// The separator between segments.
pub open spec fn separator() -> Seq<char> {
    painted(" │ "@, MUTED@)
}

/// The status line: the model line, the limits line when it is not empty,
/// then the work line, one below the other.
pub open spec fn rendered(f: Frame) -> Seq<char> {
    let work = joined(work_segments(f), separator());
    let model = joined(model_segments(f), separator());
    let limits = joined(limit_segments(f), separator());
    if limits.len() > 0 {
        model + seq!['\n'] + limits + seq!['\n'] + work
    } else if model.len() > 0 {
        model + seq!['\n'] + work
    } else {
        work
    }
}

fn push_segment(out: &mut Vec<String>, s: String)
    ensures
        views(final(out)@) == views(old(out)@).push(s@),
{
    let ghost before = out@;
    out.push(s);
    proof {
        lemma_views_push(before, s);
    }
}

fn model_segment_of(f: &Frame, out: &mut Vec<String>)
    ensures
        views(final(out)@) == views(old(out)@) + model_segment(*f),
{
    let name = match &f.model {
        Some(m) => match &m.display_name {
            Some(n) => model_name(n.as_str()),
            None => String::new(),
        },
        None => String::new(),
    };
    assert(name@ == model_label(raw_model(*f)));
    if name.as_str().is_empty() {
        assert(views(out@) =~= views(old(out)@) + model_segment(*f));
        return ;
    }
    let mut t = String::from_str("🤖 ");
    push_painted(&mut t, name.as_str(), ORANGE);
    let ghost head = t@;
    match &f.window_label {
        Some(l) => {
            let mut inner = String::new();
            push_char(&mut inner, ' ');
            inner.append(l.as_str());
            push_painted(&mut t, inner.as_str(), MAGENTA);
        },
        None => {},
    }
    let ghost label_part = match opt_view(f.window_label) {
        Some(l) => painted(seq![' '] + l, MAGENTA@),
        None => seq![],
    };
    assert(t@ =~= head + label_part);
    let ghost mid = t@;
    let level: Option<&String> = match &f.effort {
        Some(e) => e.level.as_ref(),
        None => None,
    };
    assert(match level {
        Some(l) => effort_level(*f) == Some(l@),
        None => effort_level(*f) is None,
    });
    let ghost effort_part = match effort_level(*f) {
        Some(l) => match effort_code(l) {
            Some((s, c)) => seq![' '] + painted(s, c),
            None => seq![],
        },
        None => seq![],
    };
    match level {
        Some(l) => match effort_short(l.as_str()) {
            Some((short, color)) => {
                push_char(&mut t, ' ');
                push_painted(&mut t, short, color);
                assert(t@ =~= mid + effort_part);
            },
            None => {
                assert(t@ =~= mid + effort_part);
            },
        },
        None => {
            assert(t@ =~= mid + effort_part);
        },
    }
    assert(seq![t@] =~= model_segment(*f));
    push_segment(out, t);
    assert(views(out@) =~= views(old(out)@) + model_segment(*f));
}

fn context_segment_of(c: &ContextGauge) -> (r: String)
    ensures
        r@ == context_segment(*c),
{
    let mut inner = bar_from_cells(c.cells);
    push_char(&mut inner, ' ');
    push_dec(&mut inner, c.percent as u64);
    push_char(&mut inner, '%');
    let mut t = String::from_str("🧠 ");
    push_painted(&mut t, inner.as_str(), c.color.as_str());
    push_char(&mut t, ' ');
    push_painted(&mut t, c.tokens.as_str(), WHITE);
    match c.hit {
        Some(h) => {
            let mut pct = String::new();
            push_char(&mut pct, '(');
            push_dec(&mut pct, h as u64);
            pct.append("%)");
            push_char(&mut t, ' ');
            push_painted(&mut t, pct.as_str(), hit_color(h));
        },
        None => {},
    }
    assert(t@ =~= context_segment(*c));
    t
}

fn session_segment_of(minutes: u64) -> (r: String)
    ensures
        r@ == session_segment(minutes as nat),
{
    let mut inner = String::new();
    push_dec(&mut inner, minutes / 60);
    inner.append("h ");
    push_dec(&mut inner, minutes % 60);
    push_char(&mut inner, 'm');
    let mut t = String::from_str("☕ ");
    push_painted(&mut t, inner.as_str(), PEACH);
    assert(t@ =~= session_segment(minutes as nat));
    t
}

fn cost_segment_of(cents: u64) -> (r: String)
    ensures
        r@ == cost_segment(cents as nat),
{
    let mut inner = String::from_str("💰 ");
    inner.append(fmt_cents(cents).as_str());
    let r = crate::style::paint(inner.as_str(), GOLD);
    assert(r@ =~= cost_segment(cents as nat));
    r
}

/// Draws the status line of `f`.
#[verifier::spinoff_prover]
#[verifier::rlimit(40)]
pub fn render(f: &Frame) -> (r: String)
    ensures
        r@ == rendered(*f),
{
    let separator = sep();
    // the work line
    let mut work: Vec<String> = Vec::new();
    let cur = current_dir(&f.workspace, &f.cwd);
    if !cur.as_str().is_empty() {
        let mut t = String::from_str("📂 ");
        t.append(folder_label(cur.as_str()).as_str());
        push_segment(&mut work, crate::style::paint(t.as_str(), BLUE));
        push_git_segments(&mut work, &f.git);
    }
    match f.cost_cents {
        Some(c) => push_segment(&mut work, cost_segment_of(c)),
        None => {},
    }
    assert(views(work@) =~= work_segments(*f));
    // the model line
    let mut model: Vec<String> = Vec::new();
    model_segment_of(f, &mut model);
    push_segment(&mut model, context_segment_of(&f.context));
    assert(views(model@) =~= model_segments(*f));
    // the limits line
    let mut limits: Vec<String> = Vec::new();
    match &f.five_hour {
        Some(s) => push_segment(&mut limits, s.clone()),
        None => {},
    }
    match &f.seven_day {
        Some(s) => push_segment(&mut limits, s.clone()),
        None => {},
    }
    match f.session_minutes {
        Some(m) => push_segment(&mut limits, session_segment_of(m)),
        None => {},
    }
    assert(views(limits@) =~= limit_segments(*f));
    let line1 = join(&work, separator.as_str());
    let line2 = join(&model, separator.as_str());
    let line3 = join(&limits, separator.as_str());
    let mut out: String;
    if !line3.as_str().is_empty() {
        out = line2;
        push_char(&mut out, '\n');
        out.append(line3.as_str());
        push_char(&mut out, '\n');
        out.append(line1.as_str());
    } else if !line2.as_str().is_empty() {
        out = line2;
        push_char(&mut out, '\n');
        out.append(line1.as_str());
    } else {
        out = line1;
    }
    assert(out@ =~= rendered(*f));
    out
}

} // verus!

verus! {

// ---------------------------------------------------------------- laws

proof fn lemma_trim_start_clean(s: Seq<char>)
    ensures
        trim_start(s).len() > 0 ==> !is_ws(trim_start(s)[0]),
        trim_start(s).len() <= s.len(),
    decreases s.len(),
{
    if s.len() > 0 && is_ws(s[0]) {
        lemma_trim_start_clean(s.drop_first());
    }
}

proof fn lemma_trim_end_prefix(s: Seq<char>)
    ensures
        trim_end(s).len() <= s.len(),
        trim_end(s) == s.take(trim_end(s).len() as int),
        trim_end(s).len() > 0 ==> !is_ws(trim_end(s).last()),
    decreases s.len(),
{
    if s.len() > 0 && is_ws(s.last()) {
        lemma_trim_end_prefix(s.drop_last());
        let t = trim_end(s.drop_last());
        assert(s.drop_last().take(t.len() as int) =~= s.take(t.len() as int));
    } else {
        assert(s.take(s.len() as int) =~= s);
    }
}

/// Trimmed text has white space at neither end, so trimming it again
/// changes nothing.
pub proof fn law_trim_is_clean(s: Seq<char>)
    ensures
        trim(s).len() > 0 ==> !is_ws(trim(s)[0]) && !is_ws(trim(s).last()),
        trim(trim(s)) == trim(s),
{
    let u = trim_start(s);
    let t = trim(s);
    lemma_trim_start_clean(s);
    lemma_trim_end_prefix(u);
    if t.len() > 0 {
        assert(t[0] == u[0]);
        assert(trim_start(t) == t);
        lemma_trim_end_prefix(t);
        assert(trim_end(t) == t);
    } else {
        assert(trim_start(t) == t);
        assert(trim_end(t) == t);
    }
}

/// The model's name as shown never starts or ends with white space.
pub proof fn law_model_label_is_trimmed(raw: Seq<char>)
    ensures
        model_label(raw).len() > 0 ==> !is_ws(model_label(raw)[0]) && !is_ws(
            model_label(raw).last(),
        ),
        trim(model_label(raw)) == model_label(raw),
{
    let s = trim(raw);
    law_trim_is_clean(raw);
    match last_index_of(s, '(') {
        Some(p) => law_trim_is_clean(s.take(p)),
        None => {},
    }
}

proof fn lemma_segments_clean(s: Seq<char>)
    ensures
        forall|i: int|
            0 <= i < segments(s).len() ==> #[trigger] segments(s)[i].len() > 0 && !segments(
                s,
            )[i].contains('\\') && !segments(s)[i].contains('/'),
    decreases s.len(),
{
    if s.len() > 0 {
        if is_sep(s[0]) {
            lemma_segments_clean(s.drop_first());
            assert(segments(s) == segments(s.drop_first()));
        } else {
            lemma_sep_end_bound(s);
            let e = sep_end(s) as int;
            lemma_segments_clean(s.skip(e));
            let first = s.take(e);
            assert forall|m: int| 0 <= m < e implies !is_sep(#[trigger] s[m]) by {
                lemma_sep_end_no_sep_before(s, m);
            }
            assert(!first.contains('\\') && !first.contains('/')) by {
                if first.contains('\\') || first.contains('/') {
                    let m = choose|m: int| 0 <= m < first.len() && (first[m] == '\\' || first[m]
                        == '/');
                    assert(first[m] == s[m]);
                }
            }
            let segs = segments(s);
            assert(segs == seq![first] + segments(s.skip(e)));
            assert forall|i: int| 0 <= i < segs.len() implies #[trigger] segs[i].len() > 0
                && !segs[i].contains('\\') && !segs[i].contains('/') by {
                if i > 0 {
                    assert(segs[i] == segments(s.skip(e))[i - 1]);
                }
            }
        }
    }
}

proof fn lemma_sep_end_no_sep_before(s: Seq<char>, m: int)
    requires
        0 <= m < sep_end(s),
    ensures
        !is_sep(s[m]),
    decreases s.len(),
{
    lemma_sep_end_bound(s);
    if m > 0 {
        lemma_sep_end_no_sep_before(s.drop_first(), m - 1);
    }
}

/// The label of a path with two or more components is its last two
/// components, each non-empty and free of separators, joined by a single
/// backslash.
pub proof fn law_folder_label_last_two(cur: Seq<char>)
    requires
        segments(cur).len() >= 2,
    ensures
        ({
            let p = segments(cur);
            let n = p.len();
            &&& folder_of(cur) == p[n - 2] + seq!['\\'] + p[n - 1]
            &&& p[n - 2].len() > 0 && !p[n - 2].contains('\\') && !p[n - 2].contains('/')
            &&& p[n - 1].len() > 0 && !p[n - 1].contains('\\') && !p[n - 1].contains('/')
        }),
{
    let p = segments(cur);
    lemma_segments_clean(cur);
    assert(p[p.len() - 2].len() > 0);
    assert(p[p.len() - 1].len() > 0);
}

proof fn lemma_painted_ends_in_m(t: Seq<char>, c: Seq<char>)
    ensures
        painted(t, c).len() > 0,
        painted(t, c).last() == 'm',
{
    reveal_strlit("\x1b[0m");
}

proof fn lemma_joined_last(list: Seq<Seq<char>>, sep: Seq<char>)
    requires
        list.len() > 0,
        list.last().len() > 0,
    ensures
        joined(list, sep).len() > 0,
        joined(list, sep).last() == list.last().last(),
{
    if list.len() > 1 {
        let a = joined(list.drop_last(), sep) + sep;
        assert((a + list.last()).last() == list.last().last());
    }
}

proof fn lemma_marks_end_in_m(list: Seq<Seq<char>>)
    requires
        list.len() > 0,
        forall|i: int| 0 <= i < list.len() ==> #[trigger] list[i].len() > 0 && list[i].last() == 'm',
    ensures
        joined(list, " "@).len() > 0,
        joined(list, " "@).last() == 'm',
{
    lemma_joined_last(list, " "@);
}

/// When the work line has anything on it (a folder or a cost), the status
/// line ends with it, and so never with a line break: every segment there
/// closes with the colour reset.
pub proof fn law_no_trailing_newline(f: Frame)
    requires
        work_segments(f).len() > 0,
    ensures
        rendered(f).len() > 0,
        rendered(f).last() == 'm',
{
    let segs = work_segments(f);
    let cur = dir_of(f.workspace, f.cwd);
    let folder = painted("📂 "@ + folder_of(cur), BLUE@);
    lemma_painted_ends_in_m("📂 "@ + folder_of(cur), BLUE@);
    let gs = git_segments(opt_summary(f.git));
    match opt_summary(f.git) {
        Some(g) => {
            let tail = if is_clean(g) {
                painted("✓"@, GREEN@)
            } else {
                joined(change_marks(g), " "@)
            };
            if is_clean(g) {
                lemma_painted_ends_in_m("✓"@, GREEN@);
            } else {
                let ms = change_marks(g);
                assert forall|i: int| 0 <= i < ms.len() implies #[trigger] ms[i].len() > 0
                    && ms[i].last() == 'm' by {
                    lemma_painted_ends_in_m("✚"@ + dec(g.staged), CYAN@);
                    lemma_painted_ends_in_m("●"@ + dec(g.modified), YELLOW@);
                    lemma_painted_ends_in_m("?"@ + dec(g.untracked), MUTED@);
                }
                lemma_marks_end_in_m(ms);
            }
            let bt = branch_text(g);
            assert(bt == ("🌿 "@ + painted(g.branch, PURPLE@) + seq![' ']) + tail);
            assert(bt.last() == tail.last());
            if g.ahead > 0 || g.behind > 0 {
                let ss = sync_marks(g);
                assert forall|i: int| 0 <= i < ss.len() implies #[trigger] ss[i].len() > 0
                    && ss[i].last() == 'm' by {
                    lemma_painted_ends_in_m("↑"@ + dec(g.ahead), SKY@);
                    lemma_painted_ends_in_m("↓"@ + dec(g.behind), ORANGE@);
                }
                lemma_marks_end_in_m(ss);
            }
        },
        None => {
            lemma_painted_ends_in_m("🌿 no git"@, MUTED@);
        },
    }
    match f.cost_cents {
        Some(c) => lemma_painted_ends_in_m("💰 "@ + money(c as nat), GOLD@),
        None => {},
    }
    assert(segs.last().len() > 0 && segs.last().last() == 'm');
    lemma_joined_last(segs, separator());
    let work = joined(segs, separator());
    let model = joined(model_segments(f), separator());
    let limits = joined(limit_segments(f), separator());
    assert((model + seq!['\n'] + limits + seq!['\n'] + work).last() == work.last());
    assert((model + seq!['\n'] + work).last() == work.last());
}

} // verus!

verus! {

/// `t` is a suffix of `s`.
pub open spec fn ends_with(s: Seq<char>, t: Seq<char>) -> bool {
    t.len() <= s.len() && s.skip(s.len() - t.len()) == t
}

proof fn lemma_ends_with_concat(p: Seq<char>, s: Seq<char>, t: Seq<char>)
    requires
        ends_with(s, t),
    ensures
        ends_with(p + s, t),
{
    assert((p + s).skip((p + s).len() - t.len()) =~= s.skip(s.len() - t.len()));
}

proof fn lemma_ends_with_self(s: Seq<char>)
    ensures
        ends_with(s, s),
{
    assert(s.skip(0) =~= s);
}

proof fn lemma_joined_ends_with_last(list: Seq<Seq<char>>, sep: Seq<char>)
    requires
        list.len() > 0,
    ensures
        ends_with(joined(list, sep), list.last()),
{
    lemma_ends_with_self(list.last());
    if list.len() > 1 {
        lemma_ends_with_concat(joined(list.drop_last(), sep) + sep, list.last(), list.last());
    }
}

/// The branch segment closes with a check mark exactly for a clean tree, and
/// otherwise with the last change mark: the untracked count when there are
/// untracked files, else the modified count, else the staged count.
pub proof fn law_branch_marks(g: GitSummary)
    ensures
        ({
            let t = git_segments(Some(g))[0];
            &&& (g.staged == 0 && g.modified == 0 && g.untracked == 0) ==> t == "🌿 "@ + painted(
                g.branch,
                PURPLE@,
            ) + seq![' '] + painted("✓"@, GREEN@)
            &&& g.untracked > 0 ==> ends_with(t, painted("?"@ + dec(g.untracked), MUTED@))
            &&& g.untracked == 0 && g.modified > 0 ==> ends_with(
                t,
                painted("●"@ + dec(g.modified), YELLOW@),
            )
            &&& g.untracked == 0 && g.modified == 0 && g.staged > 0 ==> ends_with(
                t,
                painted("✚"@ + dec(g.staged), CYAN@),
            )
        }),
{
    let t = git_segments(Some(g))[0];
    assert(t == branch_text(g));
    if !(g.staged == 0 && g.modified == 0 && g.untracked == 0) {
        let ms = change_marks(g);
        assert(ms.len() > 0);
        lemma_joined_ends_with_last(ms, " "@);
        let head = "🌿 "@ + painted(g.branch, PURPLE@) + seq![' '];
        assert(t == head + joined(ms, " "@));
        lemma_ends_with_concat(head, joined(ms, " "@), ms.last());
        if g.untracked > 0 {
            assert(ms.last() == painted("?"@ + dec(g.untracked), MUTED@));
        } else if g.modified > 0 {
            assert(ms.last() == painted("●"@ + dec(g.modified), YELLOW@));
        } else {
            assert(ms.last() == painted("✚"@ + dec(g.staged), CYAN@));
        }
    }
}

/// The effort letter follows the model's name whenever the effort level is a
/// known one, whether or not a window size is shown: the model segment ends
/// with a space and the letter painted in its colour.
pub proof fn law_effort_letter_shown(f: Frame)
    requires
        model_label(raw_model(f)).len() > 0,
        f.effort is Some,
        f.effort->0.level is Some,
        effort_code(f.effort->0.level->0@) is Some,
    ensures
        model_segment(f).len() == 1,
        (match effort_code(f.effort->0.level->0@) {
            Some((letter, code)) => ends_with(
                model_segment(f)[0],
                seq![' '] + painted(letter, code),
            ),
            None => false,
        }),
{
    let (s, c) = effort_code(f.effort->0.level->0@)->0;
    let e = seq![' '] + painted(s, c);
    let name = model_label(raw_model(f));
    let head = "🤖 "@ + painted(name, ORANGE@) + (match f.window_label {
        Some(l) => painted(seq![' '] + l@, MAGENTA@),
        None => seq![],
    });
    assert(model_segment(f)[0] == head + e);
    lemma_ends_with_self(e);
    lemma_ends_with_concat(head, e, e);
}

/// The cache hit rate is painted by its own value, whatever the gauge's
/// colour: green from 75%, yellow from 40%, muted below; the context segment
/// ends with it.
pub proof fn law_hit_rate_colour(c: ContextGauge)
    requires
        c.hit is Some,
    ensures
        ends_with(
            context_segment(c),
            painted(
                seq!['('] + dec(c.hit->0 as nat) + "%)"@,
                if c.hit->0 >= 75 {
                    GREEN@
                } else if c.hit->0 >= 40 {
                    YELLOW@
                } else {
                    MUTED@
                },
            ),
        ),
{
    let h = c.hit->0;
    let p = painted(seq!['('] + dec(h as nat) + "%)"@, hit_code(h as nat));
    let head = "🧠 "@ + painted(bar(c.cells as nat) + seq![' '] + dec(c.percent as nat) + seq!['%'], c.color@)
        + seq![' '] + painted(c.tokens@, WHITE@) + seq![' '];
    assert(context_segment(c) == head + p);
    lemma_ends_with_self(p);
    lemma_ends_with_concat(head, p, p);
}

} // verus!
