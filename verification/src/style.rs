//! Colours, ANSI painting, the usage bar, money and effort labels.
use vstd::prelude::*;
use crate::text::{
    all_digits, chars_of, dec, digit, digit_char, digit_value, digits_value, is_digit,
    law_numeral_reads_back,
    lemma_digit_char_value, push_char, push_dec, same_chars,
};

verus! {

pub const GREEN: &'static str = "38;5;71";

pub const YELLOW: &'static str = "38;5;179";

pub const ORANGE: &'static str = "38;5;208";

pub const RED: &'static str = "38;5;167";

pub const MUTED: &'static str = "38;5;240";

pub const CYAN: &'static str = "38;5;80";

pub const BLUE: &'static str = "38;5;75";

pub const PURPLE: &'static str = "38;5;140";

pub const WHITE: &'static str = "38;5;255";

pub const SKY: &'static str = "38;5;110";

pub const PEACH: &'static str = "38;5;215";

pub const GOLD: &'static str = "38;5;220";

pub const MAGENTA: &'static str = "38;5;176";

/// `text` in the SGR colour `code`, followed by a reset.
pub open spec fn painted(text: Seq<char>, code: Seq<char>) -> Seq<char> {
    "\x1b["@ + code + "m"@ + text + "\x1b[0m"@
}

/// Appends `text` painted in `code`.
pub fn push_painted(out: &mut String, text: &str, code: &str)
    ensures
        final(out)@ == old(out)@ + painted(text@, code@),
{
    out.append("\x1b[");
    out.append(code);
    out.append("m");
    out.append(text);
    out.append("\x1b[0m");
    assert(final(out)@ =~= old(out)@ + painted(text@, code@));
}

/// Wraps `text` in the ANSI escape that selects `code`, and resets after it.
pub fn paint(text: &str, code: &str) -> (r: String)
    ensures
        r@ == painted(text@, code@),
{
    let mut r = String::new();
    push_painted(&mut r, text, code);
    assert(r@ =~= painted(text@, code@));
    r
}

/// The separator between segments: a muted vertical bar.
pub fn sep() -> (r: String)
    ensures
        r@ == painted(" │ "@, MUTED@),
{
    paint(" │ ", MUTED)
}

} // verus!

verus! {

/// A ten-cell gauge whose first `cells` cells are full (all ten when
/// `cells >= 10`).
pub open spec fn bar(cells: nat) -> Seq<char> {
    Seq::new(10, |i: int| if i < cells { '█' } else { '░' })
}

/// The ten-cell gauge with `min(cells, 10)` full cells.
pub fn bar_from_cells(cells: usize) -> (r: String)
    ensures
        r@ == bar(cells as nat),
{
    let mut r = String::new();
    let mut i: usize = 0;
    while i < 10
        invariant
            0 <= i <= 10,
            r@ == bar(cells as nat).take(i as int),
        decreases 10 - i,
    {
        let c = if i < cells { '█' } else { '░' };
        push_char(&mut r, c);
        assert(bar(cells as nat).take(i + 1) =~= bar(cells as nat).take(i as int).push(c));
        i += 1;
    }
    assert(bar(cells as nat).take(10) =~= bar(cells as nat));
    r
}

/// Two digits of `n < 100`, with a leading zero.
pub open spec fn pad2(n: nat) -> Seq<char> {
    seq![digit_char(n / 10), digit_char(n % 10)]
}

/// Three digits of `n < 1000`, with leading zeros.
pub open spec fn pad3(n: nat) -> Seq<char> {
    seq![digit_char(n / 100), digit_char((n / 10) % 10), digit_char(n % 10)]
}

/// The numeral of `n` with a comma between each group of three digits.
pub open spec fn grouped(n: nat) -> Seq<char>
    decreases n,
{
    if n < 1000 {
        dec(n)
    } else {
        grouped(n / 1000) + seq![','] + pad3(n % 1000)
    }
}

/// An amount of `cents` as dollars: `$`, grouped whole dollars, `.`, two
/// digits of cents.
pub open spec fn money(cents: nat) -> Seq<char> {
    seq!['$'] + grouped(cents / 100) + seq!['.'] + pad2(cents % 100)
}

fn push_grouped(out: &mut String, n: u64)
    ensures
        final(out)@ == old(out)@ + grouped(n as nat),
    decreases n,
{
    if n < 1000 {
        push_dec(out, n);
    } else {
        push_grouped(out, n / 1000);
        push_char(out, ',');
        let k = n % 1000;
        push_char(out, digit(k / 100));
        push_char(out, digit((k / 10) % 10));
        push_char(out, digit(k % 10));
        assert(final(out)@ =~= old(out)@ + grouped(n as nat));
    }
}

/// Dollars and cents, as PowerShell's `{0:N2}` writes them: `$1,234.56`.
pub fn fmt_cents(cents: u64) -> (r: String)
    ensures
        r@ == money(cents as nat),
{
    let mut r = String::new();
    push_char(&mut r, '$');
    push_grouped(&mut r, cents / 100);
    push_char(&mut r, '.');
    let c = cents % 100;
    push_char(&mut r, digit(c / 10));
    push_char(&mut r, digit(c % 10));
    assert(r@ =~= money(cents as nat));
    r
}

/// The letter and colour of each effort level.
pub open spec fn effort_code(level: Seq<char>) -> Option<(Seq<char>, Seq<char>)> {
    if level == "low"@ {
        Some(("L"@, "38;5;240"@))
    } else if level == "medium"@ {
        Some(("M"@, "38;5;109"@))
    } else if level == "high"@ {
        Some(("H"@, "38;5;71"@))
    } else if level == "xhigh"@ {
        Some(("X"@, "38;5;179"@))
    } else if level == "max"@ {
        Some(("A"@, "38;5;208"@))
    } else if level == "ultracode"@ {
        Some(("U"@, "1;38;5;205"@))
    } else {
        None
    }
}

/// The one-letter label of an effort level and the colour it is shown in.
pub fn effort_short(level: &str) -> (r: Option<(&'static str, &'static str)>)
    ensures
        match r {
            Some(p) => effort_code(level@) == Some((p.0@, p.1@)),
            None => effort_code(level@) is None,
        },
{
    let v = chars_of(level);
    if same_chars(&v, &chars_of("low")) {
        Some(("L", "38;5;240"))
    } else if same_chars(&v, &chars_of("medium")) {
        Some(("M", "38;5;109"))
    } else if same_chars(&v, &chars_of("high")) {
        Some(("H", "38;5;71"))
    } else if same_chars(&v, &chars_of("xhigh")) {
        Some(("X", "38;5;179"))
    } else if same_chars(&v, &chars_of("max")) {
        Some(("A", "38;5;208"))
    } else if same_chars(&v, &chars_of("ultracode")) {
        Some(("U", "1;38;5;205"))
    } else {
        None
    }
}

/// The colour of a cache hit rate: green from 75%, yellow from 40%.
pub open spec fn hit_code(pct: nat) -> Seq<char> {
    if pct >= 75 {
        GREEN@
    } else if pct >= 40 {
        YELLOW@
    } else {
        MUTED@
    }
}

/// The colour that a cache hit rate of `pct` percent is shown in.
pub fn hit_color(pct: u32) -> (r: &'static str)
    ensures
        r@ == hit_code(pct as nat),
{
    if pct >= 75 {
        GREEN
    } else if pct >= 40 {
        YELLOW
    } else {
        MUTED
    }
}

} // verus!

verus! {

/// The gauge is `min(cells, 10)` full cells followed by empty ones, ten in
/// all.
pub proof fn law_bar_full_then_empty(cells: nat)
    ensures
        bar(cells).len() == 10,
        bar(cells) == Seq::new(
            if cells < 10 { cells } else { 10 },
            |i: int| '█',
        ) + Seq::new((10 - (if cells < 10 { cells } else { 10 })) as nat, |i: int| '░'),
{
    let m: nat = if cells < 10 { cells } else { 10 };
    assert(bar(cells) =~= Seq::new(m, |i: int| '█') + Seq::new((10 - m) as nat, |i: int| '░'));
}

/// A fuller gauge never has fewer full cells: each cell full at `a` cells is
/// full at `b >= a`, and the count of full cells, `min(cells, 10)`, grows
/// with `cells`.
pub proof fn law_bar_monotone(a: nat, b: nat)
    requires
        a <= b,
    ensures
        forall|i: int| 0 <= i < 10 && #[trigger] bar(a)[i] == '█' ==> bar(b)[i] == '█',
        (if a < 10 { a } else { 10 }) <= (if b < 10 { b } else { 10 }),
{
}

// ---------------------------------------------------------------- reading painted text

/// What follows the first `m` of `s`.
pub open spec fn skip_past_m(s: Seq<char>) -> Seq<char>
    decreases s.len(),
{
    if s.len() == 0 {
        s
    } else if s[0] == 'm' {
        s.drop_first()
    } else {
        skip_past_m(s.drop_first())
    }
}

pub proof fn lemma_skip_past_m_shorter(s: Seq<char>)
    ensures
        skip_past_m(s).len() <= s.len(),
    decreases s.len(),
{
    if s.len() > 0 && s[0] != 'm' {
        lemma_skip_past_m_shorter(s.drop_first());
    }
}

/// The text a terminal shows of `s`: each escape, up to and including the
/// `m` that ends it, taken out.
pub open spec fn strip_ansi(s: Seq<char>) -> Seq<char>
    decreases s.len(),
{
    if s.len() == 0 {
        s
    } else if s[0] == '\x1b' {
        proof {
            lemma_skip_past_m_shorter(s.drop_first());
        }
        strip_ansi(skip_past_m(s.drop_first()))
    } else {
        seq![s[0]] + strip_ansi(s.drop_first())
    }
}

proof fn lemma_strip_plain(t: Seq<char>, rest: Seq<char>)
    requires
        !t.contains('\x1b'),
    ensures
        strip_ansi(t + rest) == t + strip_ansi(rest),
    decreases t.len(),
{
    if t.len() == 0 {
        assert(t + rest =~= rest);
        assert(t + strip_ansi(rest) =~= strip_ansi(rest));
    } else {
        assert(t[0] != '\x1b') by {
            if t[0] == '\x1b' {
                assert(t.contains('\x1b'));
            }
        }
        let u = t.drop_first();
        assert(!u.contains('\x1b')) by {
            if u.contains('\x1b') {
                let i = choose|i: int| 0 <= i < u.len() && u[i] == '\x1b';
                assert(t[i + 1] == '\x1b');
            }
        }
        assert((t + rest).drop_first() =~= u + rest);
        lemma_strip_plain(u, rest);
        assert(t + strip_ansi(rest) =~= seq![t[0]] + (u + strip_ansi(rest)));
    }
}

proof fn lemma_skip_code(code: Seq<char>, rest: Seq<char>)
    requires
        !code.contains('m'),
    ensures
        skip_past_m(code + seq!['m'] + rest) == rest,
    decreases code.len(),
{
    let s = code + seq!['m'] + rest;
    if code.len() == 0 {
        assert(s.drop_first() =~= rest);
    } else {
        assert(code[0] != 'm') by {
            if code[0] == 'm' {
                assert(code.contains('m'));
            }
        }
        let u = code.drop_first();
        assert(!u.contains('m')) by {
            if u.contains('m') {
                let i = choose|i: int| 0 <= i < u.len() && u[i] == 'm';
                assert(code[i + 1] == 'm');
            }
        }
        assert(s.drop_first() =~= u + seq!['m'] + rest);
        lemma_skip_code(u, rest);
    }
}

/// Painting hides no text: a terminal shows painted text as the text itself,
/// for a colour code without `m` and text without escapes.
pub proof fn law_painted_reads_as_text(text: Seq<char>, code: Seq<char>, rest: Seq<char>)
    requires
        !code.contains('m'),
        !text.contains('\x1b'),
    ensures
        strip_ansi(painted(text, code) + rest) == text + strip_ansi(rest),
{
    reveal_strlit("\x1b[");
    reveal_strlit("m");
    reveal_strlit("\x1b[0m");
    let s = painted(text, code) + rest;
    let tail = text + ("\x1b[0m"@ + rest);
    assert(s =~= seq!['\x1b'] + (seq!['['] + code + seq!['m'] + tail));
    assert(s.drop_first() =~= (seq!['['] + code) + seq!['m'] + tail);
    assert(!(seq!['['] + code).contains('m')) by {
        if (seq!['['] + code).contains('m') {
            let i = choose|i: int| 0 <= i < code.len() + 1 && (seq!['['] + code)[i] == 'm';
            assert(code[i - 1] == 'm');
        }
    }
    lemma_skip_code(seq!['['] + code, tail);
    lemma_strip_plain(text, "\x1b[0m"@ + rest);
    let r = "\x1b[0m"@ + rest;
    assert(r[0] == '\x1b');
    assert(r.drop_first() =~= seq!['['] + seq!['0'] + seq!['m'] + rest);
    assert(!(seq!['['] + seq!['0']).contains('m')) by {
        if (seq!['['] + seq!['0']).contains('m') {
            let i = choose|i: int| 0 <= i < 2 && (seq!['['] + seq!['0'])[i] == 'm';
        }
    }
    lemma_skip_code(seq!['['] + seq!['0'], rest);
    assert((seq!['['] + seq!['0']) + seq!['m'] + rest =~= seq!['['] + seq!['0'] + seq!['m'] + rest);
}

} // verus!

verus! {

// ---------------------------------------------------------------- reading amounts back

/// The digits of `s`, in order.
pub open spec fn digits_only(s: Seq<char>) -> Seq<char>
    decreases s.len(),
{
    if s.len() == 0 {
        s
    } else if is_digit(s.last()) {
        digits_only(s.drop_last()).push(s.last())
    } else {
        digits_only(s.drop_last())
    }
}

/// `10` to the power `n`.
pub open spec fn pow10(n: nat) -> nat
    decreases n,
{
    if n == 0 {
        1
    } else {
        10 * pow10((n - 1) as nat)
    }
}

proof fn lemma_digits_only_concat(a: Seq<char>, b: Seq<char>)
    ensures
        digits_only(a + b) == digits_only(a) + digits_only(b),
    decreases b.len(),
{
    if b.len() == 0 {
        assert(a + b =~= a);
        assert(digits_only(a) + digits_only(b) =~= digits_only(a));
    } else {
        assert((a + b).drop_last() =~= a + b.drop_last());
        lemma_digits_only_concat(a, b.drop_last());
        assert(digits_only(a + b) =~= digits_only(a) + digits_only(b));
    }
}

proof fn lemma_digits_only_of_digits(s: Seq<char>)
    requires
        all_digits(s),
    ensures
        digits_only(s) == s,
    decreases s.len(),
{
    if s.len() > 0 {
        assert(is_digit(s[s.len() - 1]));
        assert(all_digits(s.drop_last())) by {
            assert forall|i: int| 0 <= i < s.drop_last().len() implies is_digit(
                #[trigger] s.drop_last()[i],
            ) by {
                assert(s.drop_last()[i] == s[i]);
            }
        }
        lemma_digits_only_of_digits(s.drop_last());
        assert(s.drop_last().push(s.last()) =~= s);
    }
}

proof fn lemma_digits_value_concat(a: Seq<char>, b: Seq<char>)
    ensures
        digits_value(a + b) == digits_value(a) * pow10(b.len()) + digits_value(b),
    decreases b.len(),
{
    if b.len() == 0 {
        assert(a + b =~= a);
        assert(digits_value(b) == 0);
        assert(pow10(b.len()) == 1);
    } else {
        let bl = b.drop_last();
        assert((a + b).drop_last() =~= a + bl);
        assert((a + b).last() == b.last());
        lemma_digits_value_concat(a, bl);
        assert(digits_value(a + b) == digits_value(a + bl) * 10 + digit_value(b.last()));
        assert(digits_value(b) == digits_value(bl) * 10 + digit_value(b.last()));
        let va = digits_value(a);
        let p = pow10(bl.len());
        assert(pow10(b.len()) == 10 * p);
        let vb = digits_value(bl);
        assert((va * p + vb) * 10 == va * (10 * p) + vb * 10) by (nonlinear_arith);
        assert(digits_value(a + bl) == va * p + vb);
        assert(digits_value(a + b) == (va * p + vb) * 10 + digit_value(b.last()));
        assert(digits_value(a + b) == va * pow10(b.len()) + digits_value(b));
    }
}

proof fn lemma_single(c: char)
    ensures
        digits_value(seq![c]) == digit_value(c),
        digits_only(seq![c]) == (if is_digit(c) { seq![c] } else { Seq::<char>::empty() }),
{
    assert(seq![c].drop_last() =~= Seq::<char>::empty());
    assert(seq![c].last() == c);
    assert(digits_value(Seq::<char>::empty()) == 0);
    assert(digits_only(Seq::<char>::empty()) == Seq::<char>::empty());
    assert(Seq::<char>::empty().push(c) =~= seq![c]);
}

proof fn lemma_fixed_digits(n: nat)
    requires
        n < 1000,
    ensures
        all_digits(pad3(n)),
        digits_value(pad3(n)) == n,
        n < 100 ==> all_digits(pad2(n)) && digits_value(pad2(n)) == n,
{
    lemma_digit_char_value(n / 100);
    lemma_digit_char_value((n / 10) % 10);
    lemma_digit_char_value(n % 10);
    let p = pad3(n);
    assert(p.drop_last().drop_last().drop_last() =~= Seq::<char>::empty());
    assert(p.drop_last().drop_last() =~= seq![digit_char(n / 100)]);
    assert(p.drop_last() =~= seq![digit_char(n / 100), digit_char((n / 10) % 10)]);
    lemma_single(digit_char(n / 100));
    assert(digits_value(p.drop_last().drop_last()) == n / 100);
    assert(digits_value(p.drop_last()) == (n / 100) * 10 + (n / 10) % 10);
    assert(((n / 100) * 10 + (n / 10) % 10) * 10 + n % 10 == n);
    if n < 100 {
        lemma_digit_char_value(n / 10);
        let q = pad2(n);
        assert(q.drop_last().drop_last() =~= Seq::<char>::empty());
        assert(q.drop_last() =~= seq![digit_char(n / 10)]);
        lemma_single(digit_char(n / 10));
        assert(digits_value(q.drop_last()) == n / 10);
        assert((n / 10) * 10 + n % 10 == n);
    }
}

proof fn lemma_grouped_digits(n: nat)
    ensures
        digits_value(digits_only(grouped(n))) == n,
    decreases n,
{
    if n < 1000 {
        law_numeral_reads_back(n);
        lemma_digits_only_of_digits(dec(n));
    } else {
        lemma_grouped_digits(n / 1000);
        let g = grouped(n / 1000);
        let k = n % 1000;
        lemma_fixed_digits(k);
        lemma_digits_only_of_digits(pad3(k));
        lemma_digits_only_concat(g, seq![',']);
        lemma_digits_only_concat(g + seq![','], pad3(k));
        lemma_single(',');
        assert(digits_only(grouped(n)) =~= digits_only(g) + pad3(k));
        lemma_digits_value_concat(digits_only(g), pad3(k));
        assert(pow10(3) == 1000) by {
            reveal_with_fuel(pow10, 4);
        }
        assert((n / 1000) * 1000 + k == n);
    }
}

/// An amount reads back: the digits of `money(cents)`, its `$`, commas and
/// point left out, are the numeral of `cents`.
pub proof fn law_money_reads_back(cents: nat)
    ensures
        digits_value(digits_only(money(cents))) == cents,
{
    let g = grouped(cents / 100);
    let c = cents % 100;
    lemma_grouped_digits(cents / 100);
    lemma_fixed_digits(c);
    lemma_digits_only_of_digits(pad2(c));
    let m = money(cents);
    assert(m =~= seq!['$'] + g + seq!['.'] + pad2(c));
    lemma_single('$');
    lemma_single('.');
    lemma_digits_only_concat(seq!['$'], g);
    lemma_digits_only_concat(seq!['$'] + g, seq!['.']);
    lemma_digits_only_concat(seq!['$'] + g + seq!['.'], pad2(c));
    assert(digits_only(m) =~= digits_only(g) + pad2(c));
    lemma_digits_value_concat(digits_only(g), pad2(c));
    assert(pow10(2) == 100) by {
        reveal_with_fuel(pow10, 3);
    }
    assert((cents / 100) * 100 + c == cents);
}

} // verus!
