//! The CPU panel's text: whole seconds of uptime, from the first field of /proc/uptime,
//! and the model and clocks of /proc/cpuinfo.

use vstd::prelude::*;

use crate::text::{
    all_digits, ascii_lower, chars_of, copy_range, digit_value, lines, lines_of, radix_value, split_once, split_once_of,
    string_of, trim, trimmed, views, words, words_of,
};

verus! {

broadcast use vstd::string::group_string_axioms;

/// Number of leading decimal digits of `s`.
pub open spec fn digit_run(s: Seq<char>) -> nat
    decreases s.len(),
{
    if s.len() > 0 && 0 <= digit_value(s[0]) < 10 {
        1 + digit_run(s.drop_first())
    } else {
        0
    }
}

proof fn lemma_digit_run(s: Seq<char>, k: int)
    requires
        0 <= k <= s.len(),
        forall|j: int| 0 <= j < k ==> 0 <= #[trigger] digit_value(s[j]) < 10,
        k == s.len() || !(0 <= digit_value(s[k]) < 10),
    ensures
        digit_run(s) == k,
    decreases k,
{
    if k > 0 {
        lemma_digit_run(s.drop_first(), k - 1);
    }
}

/// Whether `w` spells `lit` in any case of ASCII letters.
pub open spec fn spells(w: Seq<char>, lit: Seq<char>) -> bool {
    w.len() == lit.len() && forall|i: int| 0 <= i < w.len() ==> ascii_lower(#[trigger] w[i]) == lit[i]
}

/// `10^n`.
pub open spec fn pow10(n: nat) -> int
    decreases n,
{
    if n == 0 {
        1
    } else {
        10 * pow10((n - 1) as nat)
    }
}

/// The whole part of the number that the digits `s` write with the decimal point after
/// the first `p` of them; past their end, zeros fill the gap.
#[verifier::opaque]
pub open spec fn whole_part(s: Seq<char>, p: int) -> int {
    if p <= 0 {
        0
    } else if p <= s.len() {
        radix_value(s.take(p), 10)
    } else {
        radix_value(s, 10) * pow10((p - s.len()) as nat)
    }
}

/// The exponent that ends the text of a float: nothing (0), or `e` or `E`, an optional
/// sign and one or more digits.
#[verifier::opaque]
pub open spec fn exponent(t: Seq<char>) -> Option<int> {
    if t.len() == 0 {
        Some(0)
    } else if t[0] == 'e' || t[0] == 'E' {
        let u = t.drop_first();
        let negative = u.len() > 0 && u[0] == '-';
        let ds = if u.len() > 0 && (u[0] == '+' || u[0] == '-') {
            u.drop_first()
        } else {
            u
        };
        if ds.len() > 0 && all_digits(ds, 10) {
            Some(
                if negative {
                    -radix_value(ds, 10)
                } else {
                    radix_value(ds, 10)
                },
            )
        } else {
            None
        }
    } else {
        None
    }
}

/// The parts of the text of an unsigned float, `digits[.digits][exponent]` with a digit
/// on at least one side of the point: its digits, and how many of them stand before the
/// point once the exponent has moved it.
#[verifier::opaque]
pub open spec fn decimal_parts(b: Seq<char>) -> Option<(Seq<char>, int)> {
    let k = digit_run(b);
    let rest = b.skip(k as int);
    let after = if rest.len() > 0 && rest[0] == '.' {
        rest.drop_first()
    } else {
        rest
    };
    let f = digit_run(after);
    if k + f == 0 {
        None
    } else {
        match exponent(after.skip(f as int)) {
            Some(e) => Some((b.take(k as int) + after.take(f as int), k + e)),
            None => None,
        }
    }
}

/// A word read as a float (`str::parse::<f64>`) and cast to an unsigned integer, in exact
/// decimal arithmetic: the whole part of a positive number, `u64::MAX` past it and for
/// infinity; 0 for a negative number, for NaN and for a word that is no float.
pub open spec fn whole_seconds(w: Seq<char>) -> int {
    let negative = w.len() > 0 && w[0] == '-';
    let b = if w.len() > 0 && (w[0] == '+' || w[0] == '-') {
        w.drop_first()
    } else {
        w
    };
    if spells(b, "inf"@) || spells(b, "infinity"@) {
        if negative {
            0
        } else {
            u64::MAX as int
        }
    } else {
        match decimal_parts(b) {
            Some((s, p)) => if negative {
                0
            } else if whole_part(s, p) > u64::MAX {
                u64::MAX as int
            } else {
                whole_part(s, p)
            },
            None => 0,
        }
    }
}

pub open spec fn uptime_secs(raw: Seq<char>) -> int {
    let ws = words(raw);
    if ws.len() == 0 {
        0
    } else {
        whole_seconds(ws[0])
    }
}

proof fn lemma_pow10_grows(m: nat, n: nat)
    requires
        m <= n,
    ensures
        1 <= pow10(m) <= pow10(n),
    decreases n,
{
    if n > m {
        lemma_pow10_grows(m, (n - 1) as nat);
    } else {
        lemma_pow10_positive(m);
    }
}

proof fn lemma_pow10_positive(n: nat)
    ensures
        pow10(n) >= 1,
    decreases n,
{
    if n > 0 {
        lemma_pow10_positive((n - 1) as nat);
    }
}

proof fn lemma_pow10_large(n: nat)
    requires
        n >= 20,
    ensures
        pow10(n) > u64::MAX,
{
    assert(pow10(20) == 100_000_000_000_000_000_000) by {
        reveal_with_fuel(pow10, 21);
    }
    lemma_pow10_grows(20, n);
}

/// A value of at least 1 shifted by 20 or more places is past `u64::MAX`.
proof fn lemma_shift_past_max(x: int, n: nat)
    requires
        x >= 1,
        n >= 20,
    ensures
        x * pow10(n) > u64::MAX,
{
    lemma_pow10_large(n);
    assert(x * pow10(n) >= pow10(n)) by (nonlinear_arith)
        requires
            x >= 1,
            pow10(n) >= 1,
    ;
}

/// The end of the run of decimal digits that starts at `start`.
fn digits_from(w: &Vec<char>, start: usize) -> (end: usize)
    requires
        start <= w.len(),
    ensures
        start <= end <= w.len(),
        end == start + digit_run(w@.skip(start as int)),
        all_digits(w@.subrange(start as int, end as int), 10),
{
    let mut i = start;
    while i < w.len() && 0 <= crate::text::digit_value_of(w[i]) && crate::text::digit_value_of(w[i])
        < 10
        invariant
            start <= i <= w.len(),
            forall|j: int| start <= j < i ==> 0 <= #[trigger] digit_value(w@[j]) < 10,
        decreases w.len() - i,
    {
        i += 1;
    }
    proof {
        let t = w@.skip(start as int);
        assert forall|j: int| 0 <= j < i - start implies 0 <= #[trigger] digit_value(t[j]) < 10 by {
            assert(t[j] == w@[start + j]);
        }
        if i < w.len() {
            assert(t[i - start] == w@[i as int]);
        }
        lemma_digit_run(t, i - start);
        assert forall|j: int| 0 <= j < i - start implies 0 <= #[trigger] digit_value(
            w@.subrange(start as int, i as int)[j],
        ) < 10 by {
            assert(w@.subrange(start as int, i as int)[j] == w@[start + j]);
        }
    }
    i
}

/// The value of the first `n` digits of `s`, or whether it passes `u64::MAX`.
fn value_sat(s: &Vec<char>, n: usize) -> (out: (u64, bool))
    requires
        n <= s.len(),
        all_digits(s@.take(n as int), 10),
    ensures
        out.1 ==> radix_value(s@.take(n as int), 10) > u64::MAX,
        !out.1 ==> out.0 == radix_value(s@.take(n as int), 10),
{
    let mut v: u64 = 0;
    let mut saturated = false;
    let mut i: usize = 0;
    assert(s@.take(0) =~= Seq::<char>::empty());
    while i < n
        invariant
            i <= n <= s.len(),
            all_digits(s@.take(n as int), 10),
            saturated ==> radix_value(s@.take(i as int), 10) > u64::MAX,
            !saturated ==> v == radix_value(s@.take(i as int), 10),
        decreases n - i,
    {
        let ghost pre = s@.take(i as int);
        let ghost next = s@.take(i + 1);
        assert(next.drop_last() =~= pre);
        assert(next.last() == s@[i as int]);
        assert(s@.take(n as int)[i as int] == s@[i as int]);
        let d = crate::text::digit_value_of(s[i]) as u64;
        if !saturated {
            match v.checked_mul(10) {
                Some(m) => match m.checked_add(d) {
                    Some(x) => {
                        v = x;
                    },
                    None => {
                        saturated = true;
                    },
                },
                None => {
                    saturated = true;
                },
            }
        } else {
            assert(all_digits(pre, 10)) by {
                assert forall|j: int| 0 <= j < pre.len() implies 0 <= #[trigger] digit_value(pre[j])
                    < 10 by {
                    assert(pre[j] == s@.take(n as int)[j]);
                }
            }
            proof {
                crate::text::lemma_radix_value_nonneg(pre, 10);
            }
        }
        i += 1;
    }
    (v, saturated)
}

/// The value of the digits `w[start..end]`, or `cap` where it is larger.
fn capped_value(w: &Vec<char>, start: usize, end: usize, cap: u128) -> (v: u128)
    requires
        start <= end <= w.len(),
        cap <= 0x1_0000_0000_0000_0000_0000,
        all_digits(w@.subrange(start as int, end as int), 10),
    ensures
        v == if radix_value(w@.subrange(start as int, end as int), 10) > cap {
            cap as int
        } else {
            radix_value(w@.subrange(start as int, end as int), 10)
        },
{
    let mut v: u128 = 0;
    let mut i = start;
    assert(w@.subrange(start as int, start as int) =~= Seq::<char>::empty());
    while i < end
        invariant
            start <= i <= end <= w.len(),
            all_digits(w@.subrange(start as int, end as int), 10),
            cap <= 0x1_0000_0000_0000_0000_0000,
            v <= cap,
            v == if radix_value(w@.subrange(start as int, i as int), 10) > cap {
                cap as int
            } else {
                radix_value(w@.subrange(start as int, i as int), 10)
            },
        decreases end - i,
    {
        let ghost pre = w@.subrange(start as int, i as int);
        let ghost next = w@.subrange(start as int, i + 1);
        assert(next.drop_last() =~= pre);
        assert(next.last() == w@[i as int]);
        assert(w@.subrange(start as int, end as int)[i - start] == w@[i as int]);
        assert(all_digits(pre, 10)) by {
            assert forall|j: int| 0 <= j < pre.len() implies 0 <= #[trigger] digit_value(pre[j])
                < 10 by {
                assert(pre[j] == w@.subrange(start as int, end as int)[j]);
            }
        }
        proof {
            crate::text::lemma_radix_value_nonneg(pre, 10);
        }
        let d = crate::text::digit_value_of(w[i]) as u128;
        if v >= cap {
            v = cap;
        } else {
            let x = v * 10 + d;
            v = if x > cap {
                cap
            } else {
                x
            };
        }
        i += 1;
    }
    v
}

/// Whether `w[start..]` spells `lit` in any case.
fn spells_from(w: &Vec<char>, start: usize, lit: &str) -> (b: bool)
    requires
        start <= w.len(),
    ensures
        b == spells(w@.skip(start as int), lit@),
{
    let l = chars_of(lit);
    if w.len() - start != l.len() {
        return false;
    }
    let mut i: usize = 0;
    while i < l.len()
        invariant
            i <= l.len(),
            l@ == lit@,
            w.len() - start == l.len(),
            forall|j: int| 0 <= j < i ==> ascii_lower(#[trigger] w@.skip(start as int)[j]) == l@[j],
        decreases l.len() - i,
    {
        assert(w@.skip(start as int)[i as int] == w@[start + i]);
        if crate::text::lower_char(w[start + i]) != l[i] {
            return false;
        }
        i += 1;
    }
    true
}

/// `min(u64::MAX, whole_part(s, p))`.
#[verifier::spinoff_prover]
fn whole_part_sat(s: &Vec<char>, p: i128) -> (v: u64)
    requires
        all_digits(s@, 10),
    ensures
        v == if whole_part(s@, p as int) > u64::MAX {
            u64::MAX as int
        } else {
            whole_part(s@, p as int)
        },
{
    reveal(whole_part);
    let ghost sv = radix_value(s@, 10);
    assert(s@.take(s@.len() as int) =~= s@);
    proof {
        crate::text::lemma_radix_value_nonneg(s@, 10);
    }
    if p <= 0 {
        return 0;
    }
    if p <= s.len() as i128 {
        assert(all_digits(s@.take(p as int), 10)) by {
            assert forall|j: int| 0 <= j < p implies 0 <= #[trigger] digit_value(s@.take(p as int)[j])
                < 10 by {
                assert(s@.take(p as int)[j] == s@[j]);
            }
        }
        let (v, sat) = value_sat(s, p as usize);
        return if sat {
            u64::MAX
        } else {
            v
        };
    }
    let total: u128 = (p - s.len() as i128) as u128;
    proof {
        lemma_pow10_positive(total as nat);
        assert(sv * pow10(total as nat) >= sv) by (nonlinear_arith)
            requires
                sv >= 0,
                pow10(total as nat) >= 1,
        ;
    }
    assert(whole_part(s@, p as int) == sv * pow10(total as nat));
    let (v0, sat0) = value_sat(s, s.len());
    if sat0 {
        assert(radix_value(s@.take(s@.len() as int), 10) > u64::MAX);
        assert(sv > u64::MAX);
        assert(whole_part(s@, p as int) > u64::MAX);
        return u64::MAX;
    }
    let mut v = v0;
    let mut done: u128 = 0;
    assert(v == sv * pow10(0));
    while done < total && v != 0
        invariant
            done <= total,
            sv >= 0,
            v == sv * pow10(done as nat),
            whole_part(s@, p as int) == sv * pow10(total as nat),
        decreases total - done,
    {
        proof {
            assert(sv * pow10((done + 1) as nat) == (sv * pow10(done as nat)) * 10) by (nonlinear_arith)
                requires
                    pow10((done + 1) as nat) == 10 * pow10(done as nat),
            ;
        }
        match v.checked_mul(10) {
            Some(x) => {
                v = x;
            },
            None => {
                proof {
                    lemma_pow10_grows((done + 1) as nat, total as nat);
                    assert(sv * pow10(total as nat) >= sv * pow10((done + 1) as nat)) by (nonlinear_arith)
                        requires
                            sv >= 0,
                            pow10(total as nat) >= pow10((done + 1) as nat),
                    ;
                }
                return u64::MAX;
            },
        }
        done += 1;
    }
    proof {
        if v == 0 && done < total {
            lemma_pow10_positive(done as nat);
            assert(sv == 0) by (nonlinear_arith)
                requires
                    sv >= 0,
                    pow10(done as nat) >= 1,
                    sv * pow10(done as nat) == 0,
            ;
            assert(sv * pow10(total as nat) == 0) by (nonlinear_arith)
                requires
                    sv == 0,
            ;
        }
    }
    v
}

/// Past a cap of 64 places beyond the digits, a larger exponent changes nothing: the
/// number is 0 or past `u64::MAX` either way, and a negative one leaves nothing before
/// the point.
proof fn lemma_capped_exponent(s: Seq<char>, k: int, e: int, cap: int)
    requires
        all_digits(s, 10),
        0 <= k <= s.len(),
        s.len() + 64 <= cap < e,
    ensures
        whole_part(s, k + e) > u64::MAX <==> whole_part(s, k + cap) > u64::MAX,
        whole_part(s, k + e) <= u64::MAX ==> whole_part(s, k + e) == whole_part(s, k + cap),
        whole_part(s, k - e) == 0,
        whole_part(s, k - cap) == 0,
{
    reveal(whole_part);
    let sv = radix_value(s, 10);
    crate::text::lemma_radix_value_nonneg(s, 10);
    if sv == 0 {
        assert(whole_part(s, k + e) == 0);
        assert(whole_part(s, k + cap) == 0);
    } else {
        lemma_shift_past_max(sv, (k + e - s.len()) as nat);
        lemma_shift_past_max(sv, (k + cap - s.len()) as nat);
    }
}

/// The exponent at the end of `w`, from `from` on, capped at `cap` in size; `None`
/// where the text there is no exponent.
fn exponent_from(w: &Vec<char>, from: usize, cap: u128) -> (out: Option<i128>)
    requires
        from <= w.len(),
        cap <= 0x1_0000_0000_0000_0000_0000,
    ensures
        match exponent(w@.skip(from as int)) {
            Some(e) => out matches Some(x) && x == if e > cap {
                cap as int
            } else if e < -cap {
                -cap
            } else {
                e
            },
            None => out is None,
        },
{
    reveal(exponent);
    let ghost t = w@.skip(from as int);
    if from == w.len() {
        return Some(0);
    }
    assert(t[0] == w@[from as int]);
    if !(w[from] == 'e' || w[from] == 'E') {
        return None;
    }
    let mut j = from + 1;
    let eneg = j < w.len() && w[j] == '-';
    if j < w.len() && (w[j] == '+' || w[j] == '-') {
        j = j + 1;
    }
    let ghost u = t.drop_first();
    assert(u =~= w@.skip(from + 1));
    let ghost ds = if u.len() > 0 && (u[0] == '+' || u[0] == '-') {
        u.drop_first()
    } else {
        u
    };
    assert(ds =~= w@.skip(j as int));
    let dend = digits_from(w, j);
    if dend == j || dend != w.len() {
        proof {
            if ds.len() > 0 && all_digits(ds, 10) {
                lemma_digit_run(ds, ds.len() as int);
            }
        }
        return None;
    }
    assert(ds =~= w@.subrange(j as int, dend as int));
    let m = capped_value(w, j, dend, cap);
    proof {
        crate::text::lemma_radix_value_nonneg(ds, 10);
    }
    if eneg {
        Some(-(m as i128))
    } else {
        Some(m as i128)
    }
}

/// The digits before and after the point: `w[start..kend]` and `w[a..fend]`, joined.
fn mantissa_digits(w: &Vec<char>, start: usize, kend: usize, a: usize, fend: usize) -> (s: Vec<char>)
    requires
        start <= kend <= a <= fend <= w.len(),
        all_digits(w@.subrange(start as int, kend as int), 10),
        all_digits(w@.subrange(a as int, fend as int), 10),
    ensures
        s@ == w@.subrange(start as int, kend as int) + w@.subrange(a as int, fend as int),
        all_digits(s@, 10),
{
    let mut s = copy_range(w, start, kend);
    let fr = copy_range(w, a, fend);
    let mut i: usize = 0;
    let ghost s0 = s@;
    while i < fr.len()
        invariant
            i <= fr.len(),
            s@ == s0 + fr@.take(i as int),
        decreases fr.len() - i,
    {
        s.push(fr[i]);
        assert(fr@.take(i + 1) =~= fr@.take(i as int).push(fr@[i as int]));
        i += 1;
    }
    assert(fr@.take(i as int) =~= fr@);
    let ghost k = kend - start;
    assert forall|j: int| 0 <= j < s@.len() implies 0 <= #[trigger] digit_value(s@[j]) < 10 by {
        if j < k {
            assert(s@[j] == w@.subrange(start as int, kend as int)[j]);
        } else {
            assert(s@[j] == w@.subrange(a as int, fend as int)[j - k]);
        }
    }
    s
}

/// What `decimal_parts` gives, from the pieces that the reading finds.
proof fn lemma_decimal_parts(b: Seq<char>, k: int, after: Seq<char>, f: int)
    requires
        k == digit_run(b),
        after == (if b.skip(k).len() > 0 && b.skip(k)[0] == '.' {
            b.skip(k).drop_first()
        } else {
            b.skip(k)
        }),
        f == digit_run(after),
    ensures
        decimal_parts(b) == (if k + f == 0 {
            None
        } else {
            match exponent(after.skip(f)) {
                Some(e) => Some((b.take(k) + after.take(f), k + e)),
                None => None,
            }
        }),
{
    reveal(decimal_parts);
}

/// `min(u64::MAX, whole_part(..))` of the unsigned float that `w[start..]` writes; 0
/// where it writes none.
fn decimal_whole(w: &Vec<char>, start: usize) -> (v: u64)
    requires
        start <= w.len(),
    ensures
        v == match decimal_parts(w@.skip(start as int)) {
            Some((s, p)) => if whole_part(s, p) > u64::MAX {
                u64::MAX as int
            } else {
                whole_part(s, p)
            },
            None => 0,
        },
{
    let ghost b = w@.skip(start as int);
    let kend = digits_from(w, start);
    let k = kend - start;
    let mut a = kend;
    if a < w.len() && w[a] == '.' {
        a = a + 1;
    }
    let fend = digits_from(w, a);
    let f = fend - a;
    let ghost rest = b.skip(k as int);
    let ghost after = if rest.len() > 0 && rest[0] == '.' {
        rest.drop_first()
    } else {
        rest
    };
    assert(rest =~= w@.skip(kend as int));
    assert(after =~= w@.skip(a as int));
    proof {
        lemma_decimal_parts(b, k as int, after, f as int);
    }
    if k + f == 0 {
        return 0;
    }
    assert(after.skip(f as int) =~= w@.skip(fend as int));
    // The exponent, capped where its size no longer changes the result.
    let cap: u128 = w.len() as u128 + 64;
    let e = match exponent_from(w, fend, cap) {
        Some(e) => e,
        None => return 0,
    };
    let s = mantissa_digits(w, start, kend, a, fend);
    assert(s@ =~= b.take(k as int) + after.take(f as int));
    proof {
        let te = exponent(after.skip(f as int)).unwrap();
        if te > cap {
            lemma_capped_exponent(s@, k as int, te, cap as int);
        } else if te < -cap {
            lemma_capped_exponent(s@, k as int, -te, cap as int);
        }
    }
    whole_part_sat(&s, k as i128 + e)
}

fn whole_seconds_of(w: &Vec<char>) -> (v: u64)
    ensures
        v == whole_seconds(w@),
{
    let negative = w.len() > 0 && w[0] == '-';
    let start: usize = if w.len() > 0 && (w[0] == '+' || w[0] == '-') {
        1
    } else {
        0
    };
    let ghost b = if w.len() > 0 && (w[0] == '+' || w[0] == '-') {
        w@.drop_first()
    } else {
        w@
    };
    assert(b =~= w@.skip(start as int));
    if negative {
        return 0;
    }
    if spells_from(w, start, "inf") || spells_from(w, start, "infinity") {
        return u64::MAX;
    }
    decimal_whole(w, start)
}

/// Whole seconds of the first field of /proc/uptime.
pub fn parse_uptime(raw: &str) -> (secs: u64)
    ensures
        secs == uptime_secs(raw@),
{
    let ws = words_of(&chars_of(raw));
    if ws.len() == 0 {
        0
    } else {
        assert(crate::text::views(ws@)[0] == ws@[0]@);
        whole_seconds_of(&ws[0])
    }
}


/// The text fields of /proc/cpuinfo that the CPU panel shows: the first `model name`
/// (empty where there is none, as on ARM) and every `cpu MHz` value, in order.
pub struct CpuInfoFields {
    pub model: String,
    pub mhz: Vec<String>,
}

/// (model, MHz values) of the lines: a `model name` counts while the model is still
/// empty.
pub open spec fn cpuinfo_scan(ls: Seq<Seq<char>>) -> (Seq<char>, Seq<Seq<char>>)
    decreases ls.len(),
{
    if ls.len() == 0 {
        (seq![], seq![])
    } else {
        let (model, mhz) = cpuinfo_scan(ls.drop_last());
        match split_once(ls.last(), ':') {
            Some((key, value)) => if trim(key) == "model name"@ && model.len() == 0 {
                (trim(value), mhz)
            } else if trim(key) == "cpu MHz"@ {
                (model, mhz.push(trim(value)))
            } else {
                (model, mhz)
            },
            None => (model, mhz),
        }
    }
}

pub fn cpuinfo_fields(raw: &str) -> (out: CpuInfoFields)
    ensures
        out.model@ == cpuinfo_scan(lines(raw@)).0,
        out.mhz@.map_values(|v: String| v@) == cpuinfo_scan(lines(raw@)).1,
{
    let ls = lines_of(&chars_of(raw));
    let model_key = chars_of("model name");
    let mhz_key = chars_of("cpu MHz");
    let ghost all = views(ls@);
    let mut model: Vec<char> = Vec::new();
    let mut mhz: Vec<String> = Vec::new();
    let mut i: usize = 0;
    assert(all.take(0) =~= Seq::<Seq<char>>::empty());
    assert(mhz@.map_values(|v: String| v@) =~= Seq::<Seq<char>>::empty());
    while i < ls.len()
        invariant
            i <= ls.len(),
            all == views(ls@),
            model_key@ == "model name"@,
            mhz_key@ == "cpu MHz"@,
            model@ == cpuinfo_scan(all.take(i as int)).0,
            mhz@.map_values(|v: String| v@) == cpuinfo_scan(all.take(i as int)).1,
        decreases ls.len() - i,
    {
        let ghost next = all.take(i + 1);
        assert(next.drop_last() =~= all.take(i as int));
        assert(next.last() == ls@[i as int]@);
        if let Some((key, value)) = split_once_of(&ls[i], ':') {
            let k = trimmed(&key);
            if crate::config::eq_chars(&k, &model_key) && model.len() == 0 {
                model = trimmed(&value);
            } else if crate::config::eq_chars(&k, &mhz_key) {
                let ghost before = mhz@.map_values(|v: String| v@);
                let v = trimmed(&value);
                mhz.push(string_of(&v));
                assert(mhz@.map_values(|v: String| v@) =~= before.push(v@));
            }
        }
        i += 1;
    }
    assert(all.take(i as int) =~= all);
    CpuInfoFields { model: string_of(&model), mhz }
}

} // verus!
