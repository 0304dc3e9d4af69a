//! The text of a report: numbers, times, percentages and lines.
use vstd::prelude::*;
use vstd::string::*;
use crate::labels::path_view;
use crate::tally::Entry;
use crate::summary::{LabelV, LabelLine, WayLine, lines_view, ways_view, label_view, way_view};

verus! {

pub open spec fn digit_char(d: nat) -> char {
    if d == 0 { '0' } else if d == 1 { '1' } else if d == 2 { '2' } else if d == 3 { '3' }
    else if d == 4 { '4' } else if d == 5 { '5' } else if d == 6 { '6' } else if d == 7 { '7' }
    else if d == 8 { '8' } else { '9' }
}

/// Decimal digits of `n`.
pub open spec fn nat_text(n: nat) -> Seq<char>
    decreases n,
{
    if n < 10 {
        seq![digit_char(n)]
    } else {
        nat_text(n / 10) + seq![digit_char(n % 10)]
    }
}

pub open spec fn pow10(k: nat) -> nat
    decreases k,
{
    if k == 0 { 1 } else { 10 * pow10((k - 1) as nat) }
}

/// `a / b` rounded to the nearest integer, halves upward.
pub open spec fn round_div(a: nat, b: nat) -> nat {
    ((2 * a + b) / (2 * b)) as nat
}

/// `h` hundredths written with two decimals.
pub open spec fn fixed2(h: nat) -> Seq<char> {
    nat_text(h / 100) + seq!['.', digit_char((h / 10) % 10), digit_char(h % 10)]
}

/// Number of decimal digits of `q`, less one.
pub open spec fn exp10(q: nat) -> nat
    decreases q,
{
    if q < 10 { 0 } else { 1 + exp10(q / 10) }
}

/// `num / den` nanoseconds, 100 s or more, as seconds in scientific notation with
/// three significant digits.
#[verifier::opaque]
pub open spec fn sci_text(num: nat, den: nat) -> Seq<char> {
    let e = exp10(num / (den * pow10(9)));
    let m = round_div(100 * num, den * pow10(9 + e));
    if m >= 1000 {
        seq!['1', '.', '0', '0', 'e'] + nat_text(e + 1)
    } else {
        seq![digit_char(m / 100), '.', digit_char((m / 10) % 10), digit_char(m % 10), 'e'] + nat_text(e)
    }
}

/// A duration of `num / den` nanoseconds, scaled to ns, us, ms or s, with two decimals.
#[verifier::opaque]
pub open spec fn time_text(num: nat, den: nat) -> Seq<char> {
    if num < 100 * den {
        fixed2(round_div(100 * num, den)) + seq![' ', 'n', 's']
    } else if num < 100_000 * den {
        fixed2(round_div(100 * num, 1000 * den)) + seq![' ', 'u', 's']
    } else if num < 10_000_000 * den {
        fixed2(round_div(100 * num, 1_000_000 * den)) + seq![' ', 'm', 's']
    } else if num >= 100_000_000_000 * den {
        sci_text(num, den) + seq![' ', 's']
    } else {
        fixed2(round_div(100 * num, 1_000_000_000 * den)) + seq![' ', 's']
    }
}

/// The mean of `t` nanoseconds over `c` starts (over one start if there were none).
pub open spec fn avg_text(t: nat, c: nat) -> Seq<char> {
    time_text(t, if c == 0 { 1 } else { c })
}

/// `t` as a share of `total`, in percent with one decimal, right-aligned in four
/// places and followed by `%`; `0.0` when `total` is zero.
#[verifier::opaque]
pub open spec fn percent_text(t: nat, total: nat) -> Seq<char> {
    let tenths = if total == 0 { 0 } else { round_div(1000 * t, total) };
    let body = nat_text(tenths / 10) + seq!['.', digit_char(tenths % 10)];
    (if body.len() < 4 { seq![' '] + body } else { body }) + seq!['%']
}

/// A path as its labels, each followed by `:`.
pub open spec fn path_text(p: Seq<Seq<char>>) -> Seq<char>
    decreases p.len(),
{
    if p.len() == 0 {
        Seq::empty()
    } else {
        path_text(p.drop_last()) + p.last() + seq![':']
    }
}

/// `<percent> <name> <time> (<count>, <mean>)` and a line break.
pub open spec fn figures_line(name: Seq<char>, t: nat, c: nat, total: nat) -> Seq<char> {
    percent_text(t, total) + seq![' '] + name + seq![' '] + time_text(t, 1) + seq![' ', '(']
        + nat_text(c) + seq![',', ' '] + avg_text(t, c) + seq![')', '\n']
}

pub open spec fn ways_text(ws: Seq<Entry>, total: nat) -> Seq<char>
    decreases ws.len(),
{
    if ws.len() == 0 {
        Seq::empty()
    } else {
        ways_text(ws.drop_last(), total) + seq![' ', ' ', ' ', ' ', ' ', ' ']
            + figures_line(path_text(ws.last().0), ws.last().1, ws.last().2, total)
    }
}

/// A label reached one way: one line naming the whole way. Otherwise a line for the
/// label, an indented line per way, and a blank line.
pub open spec fn label_text(l: LabelV, total: nat) -> Seq<char> {
    if l.3.len() == 1 {
        figures_line(path_text(l.3[0].0), l.1, l.2, total)
    } else {
        figures_line(l.0, l.1, l.2, total) + ways_text(l.3, total) + seq!['\n']
    }
}

pub open spec fn report_text(ls: Seq<LabelV>, total: nat) -> Seq<char>
    decreases ls.len(),
{
    if ls.len() == 0 {
        Seq::empty()
    } else {
        report_text(ls.drop_last(), total) + label_text(ls.last(), total)
    }
}

fn digit_str(d: u128) -> (r: &'static str)
    requires
        d < 10,
    ensures
        r@ == seq![digit_char(d as nat)],
{
    proof {
        reveal_strlit("0");
        reveal_strlit("1");
        reveal_strlit("2");
        reveal_strlit("3");
        reveal_strlit("4");
        reveal_strlit("5");
        reveal_strlit("6");
        reveal_strlit("7");
        reveal_strlit("8");
        reveal_strlit("9");
    }
    let r = if d == 0 { "0" } else if d == 1 { "1" } else if d == 2 { "2" } else if d == 3 { "3" }
    else if d == 4 { "4" } else if d == 5 { "5" } else if d == 6 { "6" } else if d == 7 { "7" }
    else if d == 8 { "8" } else { "9" };
    assert(r@ =~= seq![digit_char(d as nat)]);
    r
}

fn push_nat(out: &mut String, n: u128)
    ensures
        final(out)@ == old(out)@ + nat_text(n as nat),
    decreases n,
{
    if n >= 10 {
        push_nat(out, n / 10);
    }
    out.append(digit_str(n % 10));
    assert(final(out)@ =~= old(out)@ + nat_text(n as nat));
}

fn push_fixed2(out: &mut String, h: u128)
    ensures
        final(out)@ == old(out)@ + fixed2(h as nat),
{
    push_nat(out, h / 100);
    out.append(".");
    out.append(digit_str((h / 10) % 10));
    out.append(digit_str(h % 10));
    proof {
        reveal_strlit(".");
    }
    assert(final(out)@ =~= old(out)@ + fixed2(h as nat));
}

proof fn lemma_pow10_9()
    ensures
        pow10(9) == 1_000_000_000,
{
    assert(pow10(0) == 1);
    assert(pow10(1) == 10);
    assert(pow10(2) == 100);
    assert(pow10(3) == 1000);
    assert(pow10(4) == 10000);
    assert(pow10(5) == 100000);
    assert(pow10(6) == 1000000);
    assert(pow10(7) == 10000000);
    assert(pow10(8) == 100000000);
}

proof fn lemma_exp10_le(x: nat)
    ensures
        exp10(x) <= x,
    decreases x,
{
    if x >= 10 {
        lemma_exp10_le(x / 10);
    }
}

fn push_sci(out: &mut String, num: u64, den: u64)
    requires
        den > 0,
        num >= 100_000_000_000 * den,
    ensures
        final(out)@ == old(out)@ + sci_text(num as nat, den as nat),
{
    let n = num as u128;
    let d = den as u128;
    let dd: u128 = d * 1_000_000_000;
    proof {
        lemma_pow10_9();
        assert(dd == den * pow10(9));
        vstd::arithmetic::div_mod::lemma_fundamental_div_mod(n as int, dd as int);
        assert(dd * (n / dd) <= n) by (nonlinear_arith)
            requires
                n == dd * (n / dd) + n % dd,
                n % dd >= 0,
        ;
        assert(n / dd >= 100) by (nonlinear_arith)
            requires
                n == dd * (n / dd) + n % dd,
                n % dd < dd,
                n >= 100 * dd,
                dd > 0,
        ;
        lemma_exp10_le((n / dd) as nat);
    }
    let q = n / dd;
    let mut e: u128 = 0;
    let mut qq = q;
    let mut p = dd;
    while qq >= 10
        invariant
            n == num,
            d == den,
            d > 0,
            e + exp10(qq as nat) == exp10(q as nat),
            p == d * pow10(9 + e as nat),
            p * qq <= n,
            p > 0,
            qq >= 1,
            exp10(q as nat) <= q,
            q <= n,
        decreases qq,
    {
        proof {
            assert((qq / 10) * 10 <= qq) by (nonlinear_arith);
            assert(p * 10 <= p * qq) by (nonlinear_arith)
                requires
                    qq >= 10,
                    p > 0,
            ;
            assert(p * 10 * (qq / 10) <= p * qq) by (nonlinear_arith)
                requires
                    (qq / 10) * 10 <= qq,
                    p > 0,
            ;
            assert(pow10(9 + e as nat + 1) == 10 * pow10(9 + e as nat));
            assert(d * pow10(9 + e as nat + 1) == d * pow10(9 + e as nat) * 10) by (nonlinear_arith)
                requires
                    pow10(9 + e as nat + 1) == 10 * pow10(9 + e as nat),
            ;
        }
        qq = qq / 10;
        e = e + 1;
        p = p * 10;
    }
    assert(p <= n) by (nonlinear_arith)
        requires
            p * qq <= n,
            qq >= 1,
            p > 0,
    ;
    let m = (200 * n + p) / (2 * p);
    proof {
        reveal(sci_text);
    }
    if m >= 1000 {
        out.append("1.00e");
        push_nat(out, e + 1);
        proof {
            reveal_strlit("1.00e");
        }
    } else {
        out.append(digit_str(m / 100));
        out.append(".");
        out.append(digit_str((m / 10) % 10));
        out.append(digit_str(m % 10));
        out.append("e");
        push_nat(out, e);
        proof {
            reveal_strlit(".");
            reveal_strlit("e");
        }
    }
    assert(final(out)@ =~= old(out)@ + sci_text(num as nat, den as nat));
}

fn pretty_time(out: &mut String, num: u64, den: u64)
    requires
        den > 0,
    ensures
        final(out)@ == old(out)@ + time_text(num as nat, den as nat),
{
    let n = num as u128;
    let d = den as u128;
    proof {
        reveal(time_text);
    }
    if n < 100 * d {
        push_fixed2(out, (200 * n + d) / (2 * d));
        out.append(" ns");
        proof {
            reveal_strlit(" ns");
        }
    } else if n < 100_000 * d {
        push_fixed2(out, (200 * n + 1000 * d) / (2 * (1000 * d)));
        out.append(" us");
        proof {
            reveal_strlit(" us");
        }
    } else if n < 10_000_000 * d {
        push_fixed2(out, (200 * n + 1_000_000 * d) / (2 * (1_000_000 * d)));
        out.append(" ms");
        proof {
            reveal_strlit(" ms");
        }
    } else if n >= 100_000_000_000 * d {
        push_sci(out, num, den);
        out.append(" s");
        proof {
            reveal_strlit(" s");
        }
    } else {
        push_fixed2(out, (200 * n + 1_000_000_000 * d) / (2 * (1_000_000_000 * d)));
        out.append(" s");
        proof {
            reveal_strlit(" s");
        }
    }
    assert(final(out)@ =~= old(out)@ + time_text(num as nat, den as nat));
}

fn push_percent(out: &mut String, t: u64, total: u64)
    ensures
        final(out)@ == old(out)@ + percent_text(t as nat, total as nat),
{
    proof {
        reveal(percent_text);
    }
    let tenths: u128 = if total == 0 {
        0
    } else {
        (2000 * (t as u128) + total as u128) / (2 * (total as u128))
    };
    let mut body = String::new();
    push_nat(&mut body, tenths / 10);
    body.append(".");
    body.append(digit_str(tenths % 10));
    proof {
        reveal_strlit(".");
        reveal_strlit(" ");
        reveal_strlit("%");
    }
    let ghost bv = nat_text((tenths / 10) as nat) + seq!['.', digit_char((tenths % 10) as nat)];
    assert(body@ =~= bv);
    if body.unicode_len() < 4 {
        out.append(" ");
    }
    out.append(body.as_str());
    out.append("%");
    assert(final(out)@ =~= old(out)@ + percent_text(t as nat, total as nat));
}

fn pretty_stack(out: &mut String, p: &Vec<&'static str>)
    ensures
        final(out)@ == old(out)@ + path_text(path_view(p@)),
{
    let ghost pv = path_view(p@);
    let mut i: usize = 0;
    proof {
        reveal_strlit(":");
        assert(pv.take(0) =~= Seq::<Seq<char>>::empty());
        assert(old(out)@ =~= old(out)@ + path_text(pv.take(0)));
    }
    while i < p.len()
        invariant
            pv == path_view(p@),
            i <= p.len(),
            out@ == old(out)@ + path_text(pv.take(i as int)),
        decreases p.len() - i,
    {
        let ghost o0 = out@;
        out.append(p[i]);
        out.append(":");
        proof {
            reveal_strlit(":");
            let t1 = pv.take(i as int + 1);
            assert(t1.drop_last() =~= pv.take(i as int));
            assert(t1.last() == p@[i as int]@);
            assert(path_text(t1) == path_text(pv.take(i as int)) + p@[i as int]@ + seq![':']);
            assert(out@ =~= o0 + p@[i as int]@ + seq![':']);
            assert(out@ =~= old(out)@ + path_text(pv.take(i as int + 1)));
        }
        i = i + 1;
    }
    assert(pv.take(i as int) =~= pv);
}

/// Writes ` <time> (<count>, <mean>)` and a line break.
fn push_figures(out: &mut String, t: u64, c: u64)
    ensures
        final(out)@ == old(out)@ + seq![' '] + time_text(t as nat, 1) + seq![' ', '(']
            + nat_text(c as nat) + seq![',', ' '] + avg_text(t as nat, c as nat) + seq![')', '\n'],
{
    proof {
        reveal_strlit(" ");
        reveal_strlit(" (");
        reveal_strlit(", ");
        reveal_strlit(")\n");
    }
    out.append(" ");
    pretty_time(out, t, 1);
    out.append(" (");
    push_nat(out, c as u128);
    out.append(", ");
    pretty_time(out, t, if c == 0 { 1 } else { c });
    out.append(")\n");
    assert(final(out)@ =~= old(out)@ + seq![' '] + time_text(t as nat, 1) + seq![' ', '(']
        + nat_text(c as nat) + seq![',', ' '] + avg_text(t as nat, c as nat) + seq![')', '\n']);
}

fn push_ways(out: &mut String, ws: &Vec<WayLine>, total: u64)
    ensures
        final(out)@ == old(out)@ + ways_text(ways_view(ws@), total as nat),
{
    let ghost wv = ways_view(ws@);
    let mut i: usize = 0;
    proof {
        reveal_strlit("      ");
        reveal_strlit(" ");
        assert(wv.take(0) =~= Seq::<Entry>::empty());
        assert(old(out)@ =~= old(out)@ + ways_text(wv.take(0), total as nat));
    }
    while i < ws.len()
        invariant
            wv == ways_view(ws@),
            i <= ws.len(),
            out@ == old(out)@ + ways_text(wv.take(i as int), total as nat),
        decreases ws.len() - i,
    {
        let w = &ws[i];
        let ghost o0 = out@;
        out.append("      ");
        push_path_line(out, &w.path, w.time, w.count, total);
        proof {
            reveal_strlit("      ");
            reveal_strlit(" ");
            let t1 = wv.take(i as int + 1);
            assert(t1.drop_last() =~= wv.take(i as int));
            assert(t1.last() == way_view(ws@[i as int]));
            let wl = way_view(ws@[i as int]);
            assert(ways_text(t1, total as nat) == ways_text(wv.take(i as int), total as nat)
                + seq![' ', ' ', ' ', ' ', ' ', ' '] + figures_line(path_text(wl.0), wl.1, wl.2, total as nat));
            assert(out@ =~= o0 + seq![' ', ' ', ' ', ' ', ' ', ' '] + figures_line(path_text(wl.0), wl.1, wl.2, total as nat));
            assert(out@ =~= old(out)@ + ways_text(wv.take(i as int + 1), total as nat));
        }
        i = i + 1;
    }
    assert(wv.take(i as int) =~= wv);
}

fn push_line(out: &mut String, name: &str, t: u64, c: u64, total: u64)
    ensures
        final(out)@ == old(out)@ + figures_line(name@, t as nat, c as nat, total as nat),
{
    proof {
        reveal_strlit(" ");
    }
    push_percent(out, t, total);
    out.append(" ");
    out.append(name);
    push_figures(out, t, c);
    assert(final(out)@ =~= old(out)@ + figures_line(name@, t as nat, c as nat, total as nat));
}

fn push_path_line(out: &mut String, p: &Vec<&'static str>, t: u64, c: u64, total: u64)
    ensures
        final(out)@ == old(out)@ + figures_line(path_text(path_view(p@)), t as nat, c as nat, total as nat),
{
    proof {
        reveal_strlit(" ");
    }
    push_percent(out, t, total);
    out.append(" ");
    pretty_stack(out, p);
    push_figures(out, t, c);
    assert(final(out)@ =~= old(out)@ + figures_line(path_text(path_view(p@)), t as nat, c as nat, total as nat));
}

fn push_label(out: &mut String, l: &LabelLine, total: u64)
    ensures
        final(out)@ == old(out)@ + label_text(label_view(*l), total as nat),
{
    let ghost lv = label_view(*l);
    if l.ways.len() == 1 {
        push_path_line(out, &l.ways[0].path, l.time, l.count, total);
        proof {
            assert(lv.3[0] == way_view(l.ways@[0]));
        }
    } else {
        proof {
            reveal_strlit("\n");
        }
        let ghost o0 = out@;
        push_line(out, l.label, l.time, l.count, total);
        let ghost o1 = out@;
        push_ways(out, &l.ways, total);
        let ghost o2 = out@;
        out.append("\n");
        assert(out@ =~= o0 + figures_line(lv.0, lv.1, lv.2, total as nat) + ways_text(lv.3, total as nat) + seq!['\n']);
    }
}

/// The text of a report on the label lines `ls`, with percentages of `total`.
pub fn render(ls: &Vec<LabelLine>, total: u64) -> (r: String)
    ensures
        r@ == report_text(lines_view(ls@), total as nat),
{
    let ghost lv = lines_view(ls@);
    let mut out = String::new();
    let mut i: usize = 0;
    assert(lv.take(0) =~= Seq::<LabelV>::empty());
    while i < ls.len()
        invariant
            lv == lines_view(ls@),
            i <= ls.len(),
            out@ == report_text(lv.take(i as int), total as nat),
        decreases ls.len() - i,
    {
        push_label(&mut out, &ls[i], total);
        proof {
            assert(lv.take(i as int + 1).drop_last() =~= lv.take(i as int));
            assert(lv.take(i as int + 1).last() == label_view(ls@[i as int]));
        }
        i = i + 1;
    }
    assert(lv.take(i as int) =~= lv);
    out
}

} // verus!
