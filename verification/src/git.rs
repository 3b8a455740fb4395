//! Reading `git status --porcelain=v2 --branch` output.
use vstd::prelude::*;
use crate::text::{
    all_digits, chars_of, dec, digits_value, has_prefix, is_digit, is_whitespace, is_ws,
    law_numeral_reads_back, same_chars, starts_with_at, string_of, trim, trim_bounds,
};

verus! {

/// The state of a working tree, as the status line shows it.
pub struct GitStatus {
    pub branch: String,
    pub ahead: u32,
    pub behind: u32,
    pub staged: u32,
    pub modified: u32,
    pub untracked: u32,
}

/// The mathematical content of a [`GitStatus`].
#[verifier::ext_equal]
pub struct GitSummary {
    pub branch: Seq<char>,
    pub ahead: nat,
    pub behind: nat,
    pub staged: nat,
    pub modified: nat,
    pub untracked: nat,
}

impl View for GitStatus {
    type V = GitSummary;

    open spec fn view(&self) -> GitSummary {
        GitSummary {
            branch: self.branch@,
            ahead: self.ahead as nat,
            behind: self.behind as nat,
            staged: self.staged as nat,
            modified: self.modified as nat,
            untracked: self.untracked as nat,
        }
    }
}

/// Nothing read yet: no branch, every count zero.
pub open spec fn empty_summary() -> GitSummary {
    GitSummary { branch: seq![], ahead: 0, behind: 0, staged: 0, modified: 0, untracked: 0 }
}

/// The counts of `g` fit in a `u32`.
pub open spec fn counts_fit(g: GitSummary) -> bool {
    g.staged <= u32::MAX && g.modified <= u32::MAX && g.untracked <= u32::MAX
}

// ---------------------------------------------------------------- lines

/// Index of the first `'\n'` in `s`, or its length when it has none.
pub open spec fn line_end(s: Seq<char>) -> nat
    decreases s.len(),
{
    if s.len() == 0 || s[0] == '\n' {
        0
    } else {
        1 + line_end(s.drop_first())
    }
}

/// A line read up to a `'\n'` loses one trailing `'\r'`.
pub open spec fn strip_cr(l: Seq<char>) -> Seq<char> {
    if l.len() > 0 && l.last() == '\r' {
        l.drop_last()
    } else {
        l
    }
}

/// The lines of `s`, as `str::lines` yields them: split at each `'\n'`,
/// a final empty piece after a last `'\n'` dropped, and a `'\r'` before a
/// `'\n'` taken off.
pub open spec fn text_lines(s: Seq<char>) -> Seq<Seq<char>>
    decreases s.len(),
{
    if s.len() == 0 {
        seq![]
    } else {
        let e = line_end(s);
        if e < s.len() {
            seq![strip_cr(s.take(e as int))] + text_lines(s.skip(e + 1int))
        } else {
            seq![s]
        }
    }
}

// ---------------------------------------------------------------- tokens

/// Index of the first white-space character of `s`, or its length.
pub open spec fn ws_end(s: Seq<char>) -> nat
    decreases s.len(),
{
    if s.len() == 0 || is_ws(s[0]) {
        0
    } else {
        1 + ws_end(s.drop_first())
    }
}

pub proof fn lemma_ws_end_bound(s: Seq<char>)
    ensures
        ws_end(s) <= s.len(),
        s.len() > 0 && !is_ws(s[0]) ==> ws_end(s) >= 1,
    decreases s.len(),
{
    if s.len() > 0 && !is_ws(s[0]) {
        lemma_ws_end_bound(s.drop_first());
    }
}

/// The white-space separated words of `s` (`str::split_whitespace`).
pub open spec fn tokens(s: Seq<char>) -> Seq<Seq<char>>
    decreases s.len(),
{
    if s.len() == 0 {
        seq![]
    } else if is_ws(s[0]) {
        tokens(s.drop_first())
    } else {
        proof {
            lemma_ws_end_bound(s);
        }
        let e = ws_end(s);
        seq![s.take(e as int)] + tokens(s.skip(e as int))
    }
}

// ---------------------------------------------------------------- numbers

/// What `s.parse::<u32>()` gives: an optional `'+'`, then one or more ASCII
/// digits whose value fits in a `u32`.
pub open spec fn parse_u32(s: Seq<char>) -> Option<nat> {
    let d = if s.len() > 0 && s[0] == '+' {
        s.drop_first()
    } else {
        s
    };
    if d.len() > 0 && all_digits(d) && digits_value(d) <= u32::MAX {
        Some(digits_value(d))
    } else {
        None
    }
}

/// `s.parse().unwrap_or(0)`.
pub open spec fn count_or_zero(s: Seq<char>) -> nat {
    match parse_u32(s) {
        Some(v) => v,
        None => 0,
    }
}

/// One word of a `# branch.ab` line: `+N` sets the commits ahead,
/// `-N` those behind; anything else changes nothing.
pub open spec fn apply_ab_token(st: (nat, nat), tok: Seq<char>) -> (nat, nat) {
    if tok.len() > 0 && tok[0] == '+' {
        (count_or_zero(tok.drop_first()), st.1)
    } else if tok.len() > 0 && tok[0] == '-' {
        (st.0, count_or_zero(tok.drop_first()))
    } else {
        st
    }
}

/// The words applied in order.
pub open spec fn ab_fold(toks: Seq<Seq<char>>, st: (nat, nat)) -> (nat, nat)
    decreases toks.len(),
{
    if toks.len() == 0 {
        st
    } else {
        ab_fold(toks.drop_first(), apply_ab_token(st, toks[0]))
    }
}

// ---------------------------------------------------------------- status lines

pub open spec fn head_prefix() -> Seq<char> {
    "# branch.head "@
}

pub open spec fn ab_prefix() -> Seq<char> {
    "# branch.ab "@
}

pub open spec fn ordinary_prefix() -> Seq<char> {
    "1 "@
}

pub open spec fn renamed_prefix() -> Seq<char> {
    "2 "@
}

pub open spec fn untracked_prefix() -> Seq<char> {
    "? "@
}

/// 1 when `c` marks a change (anything but `'.'`), else 0.
pub open spec fn marks(c: char) -> nat {
    if c != '.' {
        1
    } else {
        0
    }
}

/// What one line of porcelain v2 output does to the summary read so far.
pub open spec fn apply_line(g: GitSummary, line: Seq<char>) -> GitSummary {
    if has_prefix(line, head_prefix()) {
        GitSummary { branch: trim(line.skip(head_prefix().len() as int)), ..g }
    } else if has_prefix(line, ab_prefix()) {
        let ab = ab_fold(tokens(line.skip(ab_prefix().len() as int)), (g.ahead, g.behind));
        GitSummary { ahead: ab.0, behind: ab.1, ..g }
    } else if has_prefix(line, ordinary_prefix()) || has_prefix(line, renamed_prefix()) {
        if line.len() >= 4 {
            GitSummary {
                staged: g.staged + marks(line[2]),
                modified: g.modified + marks(line[3]),
                ..g
            }
        } else {
            g
        }
    } else if has_prefix(line, untracked_prefix()) {
        GitSummary { untracked: g.untracked + 1, ..g }
    } else {
        g
    }
}

/// The lines applied in order.
pub open spec fn lines_fold(ls: Seq<Seq<char>>, g: GitSummary) -> GitSummary
    decreases ls.len(),
{
    if ls.len() == 0 {
        g
    } else {
        lines_fold(ls.drop_first(), apply_line(g, ls[0]))
    }
}

/// The summary that the whole output describes.
pub open spec fn summary_of(text: Seq<char>) -> GitSummary {
    lines_fold(text_lines(text), empty_summary())
}

/// The status that `git status` output stands for: none without a branch
/// line, and `(detached)` shown as `detached`.
pub open spec fn status_of(text: Seq<char>) -> Option<GitSummary> {
    let g = summary_of(text);
    if g.branch.len() == 0 {
        None
    } else if g.branch == "(detached)"@ {
        Some(GitSummary { branch: "detached"@, ..g })
    } else {
        Some(g)
    }
}

} // verus!

verus! {

proof fn lemma_digits_value_take(s: Seq<char>, k: int)
    requires
        0 <= k <= s.len(),
    ensures
        digits_value(s.take(k)) <= digits_value(s),
    decreases s.len() - k,
{
    if k == s.len() {
        assert(s.take(k) =~= s);
    } else {
        let t = s.drop_last();
        lemma_digits_value_take(t, k);
        assert(t.take(k) =~= s.take(k));
    }
}

/// `v[lo..hi].parse::<u32>()`.
fn parse_u32_at(v: &Vec<char>, lo: usize, hi: usize) -> (r: Option<u32>)
    requires
        lo <= hi <= v@.len(),
    ensures
        match r {
            Some(n) => parse_u32(v@.subrange(lo as int, hi as int)) == Some(n as nat),
            None => parse_u32(v@.subrange(lo as int, hi as int)) is None,
        },
{
    let ghost s = v@.subrange(lo as int, hi as int);
    let mut d = lo;
    if d < hi && v[d] == '+' {
        d += 1;
    }
    let ghost ds = v@.subrange(d as int, hi as int);
    assert(ds =~= (if s.len() > 0 && s[0] == '+' { s.drop_first() } else { s }));
    if d == hi {
        return None;
    }
    let mut acc: u64 = 0;
    let mut k = d;
    while k < hi
        invariant
            lo <= d <= k <= hi <= v@.len(),
            ds == v@.subrange(d as int, hi as int),
            s == v@.subrange(lo as int, hi as int),
            ds == (if s.len() > 0 && s[0] == '+' { s.drop_first() } else { s }),
            ds.len() > 0,
            acc == digits_value(v@.subrange(d as int, k as int)),
            acc <= u32::MAX,
            all_digits(v@.subrange(d as int, k as int)),
        decreases hi - k,
    {
        let c = v[k];
        if !('0' <= c && c <= '9') {
            assert(ds[k - d] == c);
            return None;
        }
        let ghost pre = v@.subrange(d as int, k as int);
        let ghost next = v@.subrange(d as int, k + 1);
        assert(next.drop_last() =~= pre);
        let dv: u64 = (c as u32 - 48) as u64;
        acc = acc * 10 + dv;
        assert(all_digits(next)) by {
            assert forall|m: int| 0 <= m < next.len() implies is_digit(#[trigger] next[m]) by {
                if m < pre.len() {
                    assert(next[m] == pre[m]);
                }
            }
        }
        if acc > 4294967295 {
            proof {
                assert(ds.take(k + 1 - d) =~= next);
                lemma_digits_value_take(ds, k + 1 - d);
            }
            return None;
        }
        k += 1;
    }
    assert(v@.subrange(d as int, k as int) =~= ds);
    Some(acc as u32)
}

/// `+N` / `-N` words of a `# branch.ab` line in `v[lo..hi]`, applied to `st`.
fn read_ab(v: &Vec<char>, lo: usize, hi: usize, st: (u32, u32)) -> (r: (u32, u32))
    requires
        lo <= hi <= v@.len(),
    ensures
        (r.0 as nat, r.1 as nat) == ab_fold(
            tokens(v@.subrange(lo as int, hi as int)),
            (st.0 as nat, st.1 as nat),
        ),
{
    let mut ahead = st.0;
    let mut behind = st.1;
    let mut k = lo;
    while k < hi
        invariant
            lo <= k <= hi <= v@.len(),
            ab_fold(tokens(v@.subrange(k as int, hi as int)), (ahead as nat, behind as nat))
                == ab_fold(tokens(v@.subrange(lo as int, hi as int)), (st.0 as nat, st.1 as nat)),
        decreases hi - k,
    {
        let ghost rest = v@.subrange(k as int, hi as int);
        if is_whitespace(v[k]) {
            assert(rest.drop_first() =~= v@.subrange(k + 1, hi as int));
            k += 1;
        } else {
            let mut e = k;
            while e < hi && !is_whitespace(v[e])
                invariant
                    k <= e <= hi <= v@.len(),
                    forall|m: int| k <= m < e ==> !is_ws(#[trigger] v@[m]),
                decreases hi - e,
            {
                e += 1;
            }
            proof {
                lemma_ws_end_at(rest, e - k);
                assert(rest.take(e - k) =~= v@.subrange(k as int, e as int));
                assert(rest.skip(e - k) =~= v@.subrange(e as int, hi as int));
            }
            let ghost tok = v@.subrange(k as int, e as int);
            let ghost before = (ahead as nat, behind as nat);
            proof {
                let ts = tokens(rest);
                assert(rest[0] == v@[k as int]);
                assert(ts == seq![tok] + tokens(v@.subrange(e as int, hi as int)));
                assert(ts[0] == tok);
                assert(ts.drop_first() =~= tokens(v@.subrange(e as int, hi as int)));
            }
            if v[k] == '+' {
                assert(tok.drop_first() =~= v@.subrange(k + 1, e as int));
                ahead = match parse_u32_at(v, k + 1, e) {
                    Some(n) => n,
                    None => 0,
                };
            } else if v[k] == '-' {
                assert(tok.drop_first() =~= v@.subrange(k + 1, e as int));
                behind = match parse_u32_at(v, k + 1, e) {
                    Some(n) => n,
                    None => 0,
                };
            }
            assert((ahead as nat, behind as nat) == apply_ab_token(before, tok));
            k = e;
        }
    }
    assert(v@.subrange(hi as int, hi as int) =~= Seq::<char>::empty());
    (ahead, behind)
}

proof fn lemma_ws_end_at(s: Seq<char>, k: int)
    requires
        0 <= k <= s.len(),
        forall|m: int| 0 <= m < k ==> !is_ws(#[trigger] s[m]),
        k == s.len() || is_ws(s[k]),
    ensures
        ws_end(s) == k,
    decreases k,
{
    if k > 0 {
        let t = s.drop_first();
        assert forall|m: int| 0 <= m < k - 1 implies !is_ws(#[trigger] t[m]) by {
            assert(t[m] == s[m + 1]);
        }
        lemma_ws_end_at(t, k - 1);
    }
}

proof fn lemma_line_end_at(s: Seq<char>, k: int)
    requires
        0 <= k <= s.len(),
        forall|m: int| 0 <= m < k ==> #[trigger] s[m] != '\n',
        k == s.len() || s[k] == '\n',
    ensures
        line_end(s) == k,
    decreases k,
{
    if k > 0 {
        let t = s.drop_first();
        assert forall|m: int| 0 <= m < k - 1 implies #[trigger] t[m] != '\n' by {
            assert(t[m] == s[m + 1]);
        }
        lemma_line_end_at(t, k - 1);
    }
}

} // verus!

verus! {

proof fn lemma_lines_fold_grows(ls: Seq<Seq<char>>, g: GitSummary)
    ensures
        lines_fold(ls, g).staged >= g.staged,
        lines_fold(ls, g).modified >= g.modified,
        lines_fold(ls, g).untracked >= g.untracked,
    decreases ls.len(),
{
    if ls.len() > 0 {
        lemma_lines_fold_grows(ls.drop_first(), apply_line(g, ls[0]));
    }
}

/// The first line of `v[i..]`: it is `v[i..e]`, and the lines after it
/// start at `next`.
fn next_line(v: &Vec<char>, i: usize) -> (r: (usize, usize))
    requires
        i < v@.len(),
    ensures
        i <= r.0 <= r.1 <= v@.len(),
        r.1 > i,
        text_lines(v@.skip(i as int)) == seq![v@.subrange(i as int, r.0 as int)] + text_lines(
            v@.skip(r.1 as int),
        ),
{
    let n = v.len();
    let ghost rest = v@.skip(i as int);
    let mut j = i;
    while j < n && v[j] != '\n'
        invariant
            i <= j <= n == v@.len(),
            forall|m: int| i <= m < j ==> #[trigger] v@[m] != '\n',
        decreases n - j,
    {
        j += 1;
    }
    proof {
        assert forall|m: int| 0 <= m < j - i implies #[trigger] rest[m] != '\n' by {
            assert(rest[m] == v@[m + i]);
        }
        lemma_line_end_at(rest, j - i);
    }
    let mut e = j;
    if j < n && e > i && v[e - 1] == '\r' {
        e -= 1;
    }
    let ghost line = v@.subrange(i as int, e as int);
    let next = if j < n { j + 1 } else { n };
    proof {
        let ls = text_lines(rest);
        if j < n {
            assert(rest.take(j - i) =~= v@.subrange(i as int, j as int));
            assert(strip_cr(rest.take(j - i)) =~= line);
            assert(rest.skip(j - i + 1) =~= v@.skip(j + 1));
        } else {
            assert(rest =~= line);
            assert(v@.skip(n as int) =~= Seq::<char>::empty());
            assert(text_lines(Seq::<char>::empty()) =~= Seq::<Seq<char>>::empty());
            assert(ls == seq![line]);
            assert(ls =~= seq![line] + text_lines(v@.skip(n as int)));
        }
    }
    (e, next)
}

/// Applies the line `v[lo..hi]` to `st`.
fn apply_line_at(
    st: &mut GitStatus,
    v: &Vec<char>,
    lo: usize,
    hi: usize,
    head: &Vec<char>,
    ab: &Vec<char>,
    ordinary: &Vec<char>,
    renamed: &Vec<char>,
    untracked: &Vec<char>,
)
    requires
        lo <= hi <= v@.len(),
        head@ == head_prefix(),
        ab@ == ab_prefix(),
        ordinary@ == ordinary_prefix(),
        renamed@ == renamed_prefix(),
        untracked@ == untracked_prefix(),
        counts_fit(apply_line(old(st)@, v@.subrange(lo as int, hi as int))),
    ensures
        final(st)@ == apply_line(old(st)@, v@.subrange(lo as int, hi as int)),
{
    let ghost line = v@.subrange(lo as int, hi as int);
    if starts_with_at(v, lo, hi, head) {
        let (a, b) = trim_bounds(v, lo + head.len(), hi);
        assert(line.skip(head@.len() as int) =~= v@.subrange(lo + head@.len(), hi as int));
        st.branch = string_of(v, a, b);
    } else if starts_with_at(v, lo, hi, ab) {
        assert(line.skip(ab@.len() as int) =~= v@.subrange(lo + ab@.len(), hi as int));
        let (a, b) = read_ab(v, lo + ab.len(), hi, (st.ahead, st.behind));
        st.ahead = a;
        st.behind = b;
    } else if starts_with_at(v, lo, hi, ordinary) || starts_with_at(v, lo, hi, renamed) {
        if hi - lo >= 4 {
            assert(line[2] == v@[lo + 2]);
            assert(line[3] == v@[lo + 3]);
            if v[lo + 2] != '.' {
                st.staged = st.staged + 1;
            }
            if v[lo + 3] != '.' {
                st.modified = st.modified + 1;
            }
        }
    } else if starts_with_at(v, lo, hi, untracked) {
        st.untracked = st.untracked + 1;
    }
}

/// Reads every line of porcelain v2 output (`git status --porcelain=v2
/// --branch`) into a status, whether or not a branch line was among them.
pub fn parse_lines(input: &str) -> (r: GitStatus)
    requires
        counts_fit(summary_of(input@)),
    ensures
        r@ == summary_of(input@),
{
    let v = chars_of(input);
    let head = chars_of("# branch.head ");
    let ab = chars_of("# branch.ab ");
    let ordinary = chars_of("1 ");
    let renamed = chars_of("2 ");
    let untracked = chars_of("? ");
    let mut st = GitStatus {
        branch: String::new(),
        ahead: 0,
        behind: 0,
        staged: 0,
        modified: 0,
        untracked: 0,
    };
    let n = v.len();
    let mut i: usize = 0;
    assert(v@.skip(0) =~= v@);
    assert(st@ =~= empty_summary());
    while i < n
        invariant
            0 <= i <= n == v@.len(),
            v@ == input@,
            head@ == head_prefix(),
            ab@ == ab_prefix(),
            ordinary@ == ordinary_prefix(),
            renamed@ == renamed_prefix(),
            untracked@ == untracked_prefix(),
            counts_fit(summary_of(input@)),
            lines_fold(text_lines(v@.skip(i as int)), st@) == summary_of(input@),
        decreases n - i,
    {
        let ghost g0 = st@;
        let (e, next) = next_line(&v, i);
        let ghost line = v@.subrange(i as int, e as int);
        proof {
            let ls = text_lines(v@.skip(i as int));
            assert(ls.drop_first() =~= text_lines(v@.skip(next as int)));
            lemma_lines_fold_grows(ls.drop_first(), apply_line(g0, ls[0]));
        }
        apply_line_at(&mut st, &v, i, e, &head, &ab, &ordinary, &renamed, &untracked);
        i = next;
    }
    assert(v@.skip(n as int) =~= Seq::<char>::empty());
    st
}

/// The status that `git status --porcelain=v2 --branch` output describes:
/// `None` when it names no branch; a detached head reads `detached`.
pub fn status_from_output(text: &str) -> (r: Option<GitStatus>)
    requires
        counts_fit(summary_of(text@)),
    ensures
        match r {
            Some(s) => status_of(text@) == Some(s@),
            None => status_of(text@) is None,
        },
{
    let mut s = parse_lines(text);
    if s.branch.as_str().is_empty() {
        return None;
    }
    let b = chars_of(s.branch.as_str());
    let detached = chars_of("(detached)");
    if same_chars(&b, &detached) {
        s.branch = String::from_str("detached");
    }
    Some(s)
}

} // verus!

verus! {

/// A count written out reads back: the numeral of `n`, with or without a
/// leading `+`, parses to `n` whenever `n` fits in a `u32`.
pub proof fn law_count_reads_back(n: nat)
    requires
        n <= u32::MAX,
    ensures
        parse_u32(dec(n)) == Some(n),
        parse_u32(seq!['+'] + dec(n)) == Some(n),
{
    law_numeral_reads_back(n);
    let d = dec(n);
    assert(is_digit(d[0]));
    assert((seq!['+'] + d).drop_first() =~= d);
}

proof fn lemma_line_end_bound(s: Seq<char>)
    ensures
        line_end(s) <= s.len(),
    decreases s.len(),
{
    if s.len() > 0 && s[0] != '\n' {
        lemma_line_end_bound(s.drop_first());
    }
}

proof fn lemma_line_end_concat(a: Seq<char>, b: Seq<char>)
    requires
        line_end(a) < a.len(),
    ensures
        line_end(a + b) == line_end(a),
    decreases a.len(),
{
    if a[0] != '\n' {
        assert((a + b).drop_first() =~= a.drop_first() + b);
        lemma_line_end_concat(a.drop_first(), b);
    }
}

proof fn lemma_text_lines_concat(a: Seq<char>, b: Seq<char>)
    requires
        a.len() == 0 || a.last() == '\n',
    ensures
        text_lines(a + b) == text_lines(a) + text_lines(b),
    decreases a.len(),
{
    if a.len() == 0 {
        assert(a + b =~= b);
        assert(text_lines(a) =~= Seq::<Seq<char>>::empty());
        assert(text_lines(a) + text_lines(b) =~= text_lines(b));
    } else {
        lemma_line_end_bound(a);
        if line_end(a) == a.len() {
            lemma_line_end_no_newline_before(a, a.len() - 1);
        }
        let e = line_end(a) as int;
        lemma_line_end_concat(a, b);
        let ab = a + b;
        assert(ab.take(e) =~= a.take(e));
        assert(ab.skip(e + 1) =~= a.skip(e + 1) + b);
        let rest = a.skip(e + 1);
        assert(rest.len() == 0 || rest.last() == '\n') by {
            if rest.len() > 0 {
                assert(rest.last() == a.last());
            }
        }
        lemma_text_lines_concat(rest, b);
        assert(text_lines(ab) =~= text_lines(a) + text_lines(b));
    }
}

proof fn lemma_line_end_no_newline_before(s: Seq<char>, m: int)
    requires
        0 <= m < line_end(s),
    ensures
        s[m] != '\n',
    decreases s.len(),
{
    lemma_line_end_bound(s);
    if m > 0 {
        lemma_line_end_no_newline_before(s.drop_first(), m - 1);
    }
}

proof fn lemma_lines_fold_concat(x: Seq<Seq<char>>, y: Seq<Seq<char>>, g: GitSummary)
    ensures
        lines_fold(x + y, g) == lines_fold(y, lines_fold(x, g)),
    decreases x.len(),
{
    if x.len() == 0 {
        assert(x + y =~= y);
    } else {
        assert((x + y).drop_first() =~= x.drop_first() + y);
        lemma_lines_fold_concat(x.drop_first(), y, apply_line(g, x[0]));
    }
}

/// Output is read line by line: what follows complete lines is read on top
/// of what they said.
pub proof fn law_lines_read_in_turn(a: Seq<char>, b: Seq<char>)
    requires
        a.len() == 0 || a.last() == '\n',
    ensures
        summary_of(a + b) == lines_fold(text_lines(b), summary_of(a)),
{
    lemma_text_lines_concat(a, b);
    lemma_lines_fold_concat(text_lines(a), text_lines(b), empty_summary());
}

} // verus!

verus! {

proof fn lemma_counts_grow_by_length(s: Seq<char>, g: GitSummary)
    ensures
        lines_fold(text_lines(s), g).staged <= g.staged + s.len(),
        lines_fold(text_lines(s), g).modified <= g.modified + s.len(),
        lines_fold(text_lines(s), g).untracked <= g.untracked + s.len(),
    decreases s.len(),
{
    if s.len() > 0 {
        lemma_line_end_bound(s);
        let e = line_end(s) as int;
        let ls = text_lines(s);
        if e < s.len() {
            let l = strip_cr(s.take(e));
            assert(ls[0] == l);
            assert(ls.drop_first() =~= text_lines(s.skip(e + 1)));
            assert(lines_fold(ls, g) == lines_fold(ls.drop_first(), apply_line(g, ls[0])));
            lemma_counts_grow_by_length(s.skip(e + 1), apply_line(g, l));
        } else {
            assert(ls == seq![s]);
            assert(ls.drop_first() =~= Seq::<Seq<char>>::empty());
            assert(lines_fold(ls, g) == lines_fold(ls.drop_first(), apply_line(g, ls[0])));
        }
    }
}

/// Each line adds at most one to a count, so the counts of any output are
/// at most its length; output of at most `u32::MAX` characters always fits.
pub proof fn law_counts_within_length(text: Seq<char>)
    ensures
        summary_of(text).staged <= text.len(),
        summary_of(text).modified <= text.len(),
        summary_of(text).untracked <= text.len(),
        text.len() <= u32::MAX ==> counts_fit(summary_of(text)),
{
    lemma_counts_grow_by_length(text, empty_summary());
}

/// An untracked entry counts once: after complete lines `a`, the line
/// `? <path>` adds one untracked file and changes nothing else.
pub proof fn law_untracked_entry_counts_once(a: Seq<char>, path: Seq<char>)
    requires
        a.len() == 0 || a.last() == '\n',
        !path.contains('\n'),
    ensures
        summary_of(a + untracked_prefix() + path + seq!['\n']) == (GitSummary {
            untracked: summary_of(a).untracked + 1,
            ..summary_of(a)
        }),
{
    reveal_strlit("? ");
    reveal_strlit("# branch.head ");
    reveal_strlit("# branch.ab ");
    reveal_strlit("1 ");
    reveal_strlit("2 ");
    let rest = untracked_prefix() + path + seq!['\n'];
    assert(a + untracked_prefix() + path + seq!['\n'] =~= a + rest);
    law_lines_read_in_turn(a, rest);
    let k = rest.len() - 1;
    assert forall|m: int| 0 <= m < k implies #[trigger] rest[m] != '\n' by {
        if m >= 2 {
            assert(rest[m] == path[m - 2]);
        }
    }
    lemma_line_end_at(rest, k);
    let l = strip_cr(rest.take(k));
    assert(l.len() >= 2 && l[0] == '?' && l[1] == ' ');
    assert(l.subrange(0, 2) =~= untracked_prefix());
    assert(!has_prefix(l, head_prefix())) by {
        if has_prefix(l, head_prefix()) {
            assert(l.subrange(0, head_prefix().len() as int)[0] == '#');
        }
    }
    assert(!has_prefix(l, ab_prefix())) by {
        if has_prefix(l, ab_prefix()) {
            assert(l.subrange(0, ab_prefix().len() as int)[0] == '#');
        }
    }
    assert(!has_prefix(l, ordinary_prefix())) by {
        if has_prefix(l, ordinary_prefix()) {
            assert(l.subrange(0, 2)[0] == '1');
        }
    }
    assert(!has_prefix(l, renamed_prefix())) by {
        if has_prefix(l, renamed_prefix()) {
            assert(l.subrange(0, 2)[0] == '2');
        }
    }
    let ls = text_lines(rest);
    assert(rest.skip(k + 1) =~= Seq::<char>::empty());
    assert(text_lines(Seq::<char>::empty()) =~= Seq::<Seq<char>>::empty());
    assert(ls == seq![l] + text_lines(rest.skip(k + 1)));
    assert(ls =~= seq![l]);
    assert(lines_fold(ls, summary_of(a)) == lines_fold(ls.drop_first(), apply_line(summary_of(a), l)));
    assert(ls.drop_first() =~= Seq::<Seq<char>>::empty());
}

} // verus!

verus! {

/// The `# branch.ab +A -B` line of `A` commits ahead and `B` behind.
pub open spec fn sync_line(a: nat, b: nat) -> Seq<char> {
    ab_prefix() + seq!['+'] + dec(a) + seq![' ', '-'] + dec(b)
}

proof fn lemma_no_ws_no_newline_in_numeral(n: nat)
    ensures
        forall|m: int| 0 <= m < dec(n).len() ==> !is_ws(#[trigger] dec(n)[m]) && dec(n)[m] != '\n',
{
    law_numeral_reads_back(n);
    assert forall|m: int| 0 <= m < dec(n).len() implies !is_ws(#[trigger] dec(n)[m]) && dec(n)[m]
        != '\n' by {
        assert(is_digit(dec(n)[m]));
    }
}

proof fn lemma_sign_token(sign: char, n: nat)
    requires
        sign == '+' || sign == '-',
    ensures
        tokens(seq![sign] + dec(n)) == seq![seq![sign] + dec(n)],
{
    let t = seq![sign] + dec(n);
    lemma_no_ws_no_newline_in_numeral(n);
    assert forall|m: int| 0 <= m < t.len() implies !is_ws(#[trigger] t[m]) by {
        if m > 0 {
            assert(t[m] == dec(n)[m - 1]);
        }
    }
    lemma_ws_end_at(t, t.len() as int);
    assert(t.take(t.len() as int) =~= t);
    assert(t.skip(t.len() as int) =~= Seq::<char>::empty());
    assert(tokens(Seq::<char>::empty()) =~= Seq::<Seq<char>>::empty());
    assert(tokens(t) =~= seq![t]);
}

/// The sync line is read back exactly: after it, the status is `A` commits
/// ahead and `B` behind, whether or not a newline ends it.
pub proof fn law_sync_line_reads_back(a: nat, b: nat)
    requires
        a <= u32::MAX,
        b <= u32::MAX,
    ensures
        summary_of(sync_line(a, b)).ahead == a,
        summary_of(sync_line(a, b)).behind == b,
        summary_of(sync_line(a, b) + seq!['\n']).ahead == a,
        summary_of(sync_line(a, b) + seq!['\n']).behind == b,
{
    reveal_strlit("# branch.head ");
    reveal_strlit("# branch.ab ");
    let line = sync_line(a, b);
    let p = ab_prefix();
    let da = dec(a);
    let db = dec(b);
    lemma_no_ws_no_newline_in_numeral(a);
    lemma_no_ws_no_newline_in_numeral(b);
    law_count_reads_back(a);
    law_count_reads_back(b);
    // the line holds no newline
    assert forall|m: int| 0 <= m < line.len() implies #[trigger] line[m] != '\n' by {
        if m >= p.len() + 1 && m < p.len() + 1 + da.len() {
            assert(line[m] == da[m - p.len() - 1]);
        } else if m >= p.len() + 3 + da.len() {
            assert(line[m] == db[m - p.len() - 3 - da.len()]);
        }
    }
    // it is a sync line, not a branch line
    assert(line.subrange(0, p.len() as int) =~= p);
    assert(!has_prefix(line, head_prefix())) by {
        if has_prefix(line, head_prefix()) {
            assert(line.subrange(0, head_prefix().len() as int)[9] == 'h');
        }
    }
    // its words
    let rest = seq!['+'] + da + seq![' ', '-'] + db;
    assert(line.skip(p.len() as int) =~= rest);
    let k = 1 + da.len();
    assert forall|m: int| 0 <= m < k implies !is_ws(#[trigger] rest[m]) by {
        if m > 0 {
            assert(rest[m] == da[m - 1]);
        }
    }
    lemma_ws_end_at(rest, k as int);
    assert(rest.take(k as int) =~= seq!['+'] + da);
    let tail = rest.skip(k as int);
    assert(tail =~= seq![' '] + (seq!['-'] + db));
    assert(tail.drop_first() =~= seq!['-'] + db);
    lemma_sign_token('-', b);
    assert(tokens(tail) == tokens(tail.drop_first()));
    let toks = tokens(rest);
    assert(toks == seq![seq!['+'] + da] + tokens(tail));
    assert(toks =~= seq![seq!['+'] + da, seq!['-'] + db]);
    assert((seq!['+'] + da).drop_first() =~= da);
    assert((seq!['-'] + db).drop_first() =~= db);
    let st0 = (0nat, 0nat);
    let st1 = apply_ab_token(st0, toks[0]);
    assert(st1 == (a, 0nat));
    let st2 = apply_ab_token(st1, toks[1]);
    assert(st2 == (a, b));
    assert(toks.drop_first().drop_first() =~= Seq::<Seq<char>>::empty());
    assert(ab_fold(toks, st0) == ab_fold(toks.drop_first(), st1));
    assert(ab_fold(toks.drop_first(), st1) == ab_fold(toks.drop_first().drop_first(), st2));
    let g = apply_line(empty_summary(), line);
    assert(g.ahead == a && g.behind == b);
    // the whole text is this one line
    lemma_line_end_at(line, line.len() as int);
    assert(text_lines(line) =~= seq![line]);
    assert(lines_fold(seq![line], empty_summary()) == lines_fold(
        seq![line].drop_first(),
        g,
    ));
    assert(seq![line].drop_first() =~= Seq::<Seq<char>>::empty());
    let nl = line + seq!['\n'];
    assert forall|m: int| 0 <= m < line.len() implies #[trigger] nl[m] != '\n' by {
        assert(nl[m] == line[m]);
    }
    lemma_line_end_at(nl, line.len() as int);
    assert(nl.take(line.len() as int) =~= line);
    assert(strip_cr(line) == line) by {
        assert(line.last() == db.last());
    }
    assert(nl.skip(line.len() + 1int) =~= Seq::<char>::empty());
    assert(text_lines(Seq::<char>::empty()) =~= Seq::<Seq<char>>::empty());
    assert(text_lines(nl) =~= seq![line]);
}

} // verus!

verus! {

/// Whether the counts of entries in `text` fit in a `u32`: exactly the
/// outputs that `status_from_output` reads without its counters overflowing.
pub fn counts_fit_in(text: &str) -> (b: bool)
    ensures
        b == counts_fit(summary_of(text@)),
{
    let v = chars_of(text);
    let head = chars_of("# branch.head ");
    let ab = chars_of("# branch.ab ");
    let ordinary = chars_of("1 ");
    let renamed = chars_of("2 ");
    let untracked = chars_of("? ");
    let mut staged: u64 = 0;
    let mut modified: u64 = 0;
    let mut untracked_count: u64 = 0;
    let ghost mut g: GitSummary = empty_summary();
    let n = v.len();
    let mut i: usize = 0;
    assert(v@.skip(0) =~= v@);
    while i < n
        invariant
            0 <= i <= n == v@.len(),
            v@ == text@,
            head@ == head_prefix(),
            ab@ == ab_prefix(),
            ordinary@ == ordinary_prefix(),
            renamed@ == renamed_prefix(),
            untracked@ == untracked_prefix(),
            lines_fold(text_lines(v@.skip(i as int)), g) == summary_of(text@),
            staged == g.staged,
            modified == g.modified,
            untracked_count == g.untracked,
            g.staged <= i,
            g.modified <= i,
            g.untracked <= i,
        decreases n - i,
    {
        let (e, next) = next_line(&v, i);
        let ghost line = v@.subrange(i as int, e as int);
        proof {
            let ls = text_lines(v@.skip(i as int));
            assert(ls.drop_first() =~= text_lines(v@.skip(next as int)));
        }
        if starts_with_at(&v, i, e, &head) {
        } else if starts_with_at(&v, i, e, &ab) {
        } else if starts_with_at(&v, i, e, &ordinary) || starts_with_at(&v, i, e, &renamed) {
            if e - i >= 4 {
                assert(line[2] == v@[i + 2]);
                assert(line[3] == v@[i + 3]);
                if v[i + 2] != '.' {
                    staged = staged + 1;
                }
                if v[i + 3] != '.' {
                    modified = modified + 1;
                }
            }
        } else if starts_with_at(&v, i, e, &untracked) {
            untracked_count = untracked_count + 1;
        }
        proof {
            g = apply_line(g, line);
        }
        i = next;
    }
    assert(v@.skip(n as int) =~= Seq::<char>::empty());
    staged <= 4294967295 && modified <= 4294967295 && untracked_count <= 4294967295
}

} // verus!

verus! {

/// An entry line counts by its two status letters: after complete lines `a`,
/// an ordinary (`1 `) or renamed/copied (`2 `) entry whose index letter `x`
/// is not `.` adds one staged change, and whose work-tree letter `y` is not
/// `.` adds one modified change; nothing else changes. So added (`A`),
/// deleted (`D`), type-changed (`T`), copied (`C`), renamed (`R`), modified
/// (`M`) and unmerged letters all count.
pub proof fn law_entry_letters_count(
    a: Seq<char>,
    kind: char,
    x: char,
    y: char,
    rest: Seq<char>,
)
    requires
        a.len() == 0 || a.last() == '\n',
        kind == '1' || kind == '2',
        x != '\n' && y != '\n',
        !rest.contains('\n'),
        (seq![kind, ' ', x, y] + rest).last() != '\r',
    ensures
        ({
            let s = summary_of(a);
            let t = summary_of(a + seq![kind, ' ', x, y] + rest + seq!['\n']);
            &&& t.staged == s.staged + (if x != '.' { 1nat } else { 0nat })
            &&& t.modified == s.modified + (if y != '.' { 1nat } else { 0nat })
            &&& t.untracked == s.untracked
            &&& t.branch == s.branch
            &&& t.ahead == s.ahead
            &&& t.behind == s.behind
        }),
{
    reveal_strlit("# branch.head ");
    reveal_strlit("# branch.ab ");
    reveal_strlit("1 ");
    reveal_strlit("2 ");
    let l = seq![kind, ' ', x, y] + rest;
    let text = l + seq!['\n'];
    assert(a + seq![kind, ' ', x, y] + rest + seq!['\n'] =~= a + text);
    law_lines_read_in_turn(a, text);
    let k = l.len() as int;
    assert forall|m: int| 0 <= m < k implies #[trigger] text[m] != '\n' by {
        if m >= 4 {
            assert(text[m] == rest[m - 4]);
            assert(rest.contains(rest[m - 4]));
        }
    }
    lemma_line_end_at(text, k);
    assert(text.take(k) =~= l);
    assert(strip_cr(l) == l);
    assert(text.skip(k + 1) =~= Seq::<char>::empty());
    assert(text_lines(Seq::<char>::empty()) =~= Seq::<Seq<char>>::empty());
    let ls = text_lines(text);
    assert(ls == seq![l] + text_lines(text.skip(k + 1)));
    assert(ls =~= seq![l]);
    assert(!has_prefix(l, head_prefix())) by {
        if has_prefix(l, head_prefix()) {
            assert(l.subrange(0, head_prefix().len() as int)[0] == '#');
        }
    }
    assert(!has_prefix(l, ab_prefix())) by {
        if has_prefix(l, ab_prefix()) {
            assert(l.subrange(0, ab_prefix().len() as int)[0] == '#');
        }
    }
    if kind == '1' {
        assert(l.subrange(0, 2) =~= ordinary_prefix());
    } else {
        assert(l.subrange(0, 2) =~= renamed_prefix());
    }
    assert(l[2] == x && l[3] == y);
    let s = summary_of(a);
    assert(lines_fold(ls, s) == lines_fold(ls.drop_first(), apply_line(s, l)));
    assert(ls.drop_first() =~= Seq::<Seq<char>>::empty());
}

} // verus!
