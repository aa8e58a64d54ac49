//! Plain-text toolkit shared by the parsers of `/proc` and `/sys` files.
//!
//! Each operation is stated over `Seq<char>` with the meaning that `str` gives it in
//! Rust (`lines`, `split_whitespace`, `trim`, `split_once`, `split`, `parse`), and
//! implemented on `Vec<char>`.

use vstd::prelude::*;

verus! {

broadcast use vstd::string::group_string_axioms;

/// The characters of `s`, in order.
pub fn chars_of(s: &str) -> (out: Vec<char>)
    ensures
        out@ == s@,
{
    let mut out: Vec<char> = Vec::new();
    for c in it: s.chars()
        invariant
            out@ == it.seq().take(it.index() as int),
    {
        out.push(c);
    }
    out
}

/// Copy of `s[start..end]`.
pub fn copy_range(s: &Vec<char>, start: usize, end: usize) -> (out: Vec<char>)
    requires
        start <= end <= s.len(),
    ensures
        out@ == s@.subrange(start as int, end as int),
{
    let mut out: Vec<char> = Vec::new();
    let mut i = start;
    while i < end
        invariant
            start <= i <= end <= s.len(),
            out@ == s@.subrange(start as int, i as int),
        decreases end - i,
    {
        out.push(s[i]);
        i += 1;
        assert(out@ =~= s@.subrange(start as int, i as int));
    }
    out
}

/// Number of leading characters of `s` that differ from `c`.
pub open spec fn find_len(s: Seq<char>, c: char) -> nat
    decreases s.len(),
{
    if s.len() == 0 {
        0
    } else if s[0] == c {
        0
    } else {
        1 + find_len(s.drop_first(), c)
    }
}

pub proof fn lemma_find_len(s: Seq<char>, c: char, k: int)
    requires
        0 <= k <= s.len(),
        forall|j: int| 0 <= j < k ==> s[j] != c,
        k == s.len() || s[k] == c,
    ensures
        find_len(s, c) == k,
    decreases k,
{
    if k > 0 {
        lemma_find_len(s.drop_first(), c, k - 1);
    }
}

pub proof fn lemma_find_len_bounds(s: Seq<char>, c: char)
    ensures
        find_len(s, c) <= s.len(),
        forall|j: int| 0 <= j < find_len(s, c) ==> s[j] != c,
        find_len(s, c) == s.len() || s[find_len(s, c) as int] == c,
    decreases s.len(),
{
    if s.len() > 0 && s[0] != c {
        lemma_find_len_bounds(s.drop_first(), c);
        assert forall|j: int| 0 <= j < find_len(s, c) implies s[j] != c by {
            if j > 0 {
                assert(s[j] == s.drop_first()[j - 1]);
            }
        }
    }
}

/// Index of the first `c` at or after `start`, or `s.len()`.
pub fn find_from(s: &Vec<char>, start: usize, c: char) -> (k: usize)
    requires
        start <= s.len(),
    ensures
        start <= k <= s.len(),
        k == start + find_len(s@.skip(start as int), c),
{
    let mut k = start;
    while k < s.len() && s[k] != c
        invariant
            start <= k <= s.len(),
            forall|j: int| start <= j < k ==> s@[j] != c,
        decreases s.len() - k,
    {
        k += 1;
    }
    proof {
        lemma_find_len(s@.skip(start as int), c, k - start);
    }
    k
}

/// The contents of each vector of `v`.
pub open spec fn views(v: Seq<Vec<char>>) -> Seq<Seq<char>> {
    v.map_values(|l: Vec<char>| l@)
}

/// A line without its `\r` before the `\n` that ended it.
pub open spec fn strip_cr(line: Seq<char>) -> Seq<char> {
    if line.len() > 0 && line.last() == '\r' {
        line.drop_last()
    } else {
        line
    }
}

/// `str::lines`: the text split at each `\n`, with a `\r` before that `\n` removed; a
/// last line without `\n` is kept whole, and nothing follows a final `\n`.
pub open spec fn lines(s: Seq<char>) -> Seq<Seq<char>>
    decreases s.len(),
{
    if s.len() == 0 {
        seq![]
    } else {
        let k = find_len(s, '\n');
        if k < s.len() {
            seq![strip_cr(s.take(k as int))] + lines(s.skip(k + 1 as int))
        } else {
            seq![s]
        }
    }
}

/// The lines of `s`, as `str::lines` gives them.
pub fn lines_of(s: &Vec<char>) -> (out: Vec<Vec<char>>)
    ensures
        views(out@) == lines(s@),
{
    let mut out: Vec<Vec<char>> = Vec::new();
    let mut start: usize = 0;
    assert(s@.skip(0) =~= s@);
    assert(views(out@) + lines(s@) =~= lines(s@));
    while start < s.len()
        invariant
            start <= s.len(),
            lines(s@) == views(out@) + lines(s@.skip(start as int)),
        decreases s.len() - start,
    {
        let ghost rest = s@.skip(start as int);
        let k = find_from(s, start, '\n');
        let ghost old_dv = views(out@);
        if k < s.len() {
            let mut line = copy_range(s, start, k);
            if line.len() > 0 && line[line.len() - 1] == '\r' {
                line.pop();
            }
            assert(rest.take(k - start) =~= s@.subrange(start as int, k as int));
            assert(rest.skip(k - start + 1) =~= s@.skip(k + 1));
            assert(line@ == strip_cr(rest.take(k - start)));
            out.push(line);
            assert(views(out@) =~= old_dv.push(strip_cr(rest.take(k - start))));
            start = k + 1;
        } else {
            let line = copy_range(s, start, s.len());
            assert(line@ =~= rest);
            out.push(line);
            assert(views(out@) =~= old_dv.push(rest));
            start = s.len();
            assert(s@.skip(start as int) =~= Seq::<char>::empty());
        }
    }
    assert(views(out@) + lines(s@.skip(start as int)) =~= views(out@));
    out
}


/// `char::is_whitespace`: the Unicode `White_Space` characters.
pub open spec fn is_ws(c: char) -> bool {
    let u = c as u32;
    u == 0x20 || (0x09 <= u <= 0x0d) || u == 0x85 || u == 0xa0 || u == 0x1680 || (0x2000
        <= u <= 0x200a) || u == 0x2028 || u == 0x2029 || u == 0x202f || u == 0x205f || u
        == 0x3000
}

pub fn is_ws_char(c: char) -> (b: bool)
    ensures
        b == is_ws(c),
{
    let u = c as u32;
    u == 0x20 || (0x09 <= u && u <= 0x0d) || u == 0x85 || u == 0xa0 || u == 0x1680 || (0x2000
        <= u && u <= 0x200a) || u == 0x2028 || u == 0x2029 || u == 0x202f || u == 0x205f || u
        == 0x3000
}

/// Number of leading characters of `s` that are not whitespace.
pub open spec fn word_len(s: Seq<char>) -> nat
    decreases s.len(),
{
    if s.len() == 0 || is_ws(s[0]) {
        0
    } else {
        1 + word_len(s.drop_first())
    }
}

pub proof fn lemma_word_len(s: Seq<char>, k: int)
    requires
        0 <= k <= s.len(),
        forall|j: int| 0 <= j < k ==> !is_ws(s[j]),
        k == s.len() || is_ws(s[k]),
    ensures
        word_len(s) == k,
    decreases k,
{
    if k > 0 {
        lemma_word_len(s.drop_first(), k - 1);
    }
}

pub proof fn lemma_word_len_bounds(s: Seq<char>)
    ensures
        word_len(s) <= s.len(),
    decreases s.len(),
{
    if s.len() > 0 && !is_ws(s[0]) {
        lemma_word_len_bounds(s.drop_first());
    }
}

/// `str::split_whitespace`: the maximal runs of non-whitespace characters.
pub open spec fn words(s: Seq<char>) -> Seq<Seq<char>>
    decreases s.len(),
{
    if s.len() == 0 {
        seq![]
    } else if is_ws(s[0]) {
        words(s.drop_first())
    } else {
        let k = word_len(s);
        proof {
            lemma_word_len_bounds(s);
        }
        seq![s.take(k as int)] + words(s.skip(k as int))
    }
}

/// The words of `s`, as `str::split_whitespace` gives them.
pub fn words_of(s: &Vec<char>) -> (out: Vec<Vec<char>>)
    ensures
        views(out@) == words(s@),
{
    let mut out: Vec<Vec<char>> = Vec::new();
    let mut i: usize = 0;
    assert(s@.skip(0) =~= s@);
    assert(views(out@) + words(s@) =~= words(s@));
    while i < s.len()
        invariant
            i <= s.len(),
            words(s@) == views(out@) + words(s@.skip(i as int)),
        decreases s.len() - i,
    {
        let ghost rest = s@.skip(i as int);
        if is_ws_char(s[i]) {
            assert(rest.drop_first() =~= s@.skip(i + 1));
            i += 1;
        } else {
            let mut k = i;
            while k < s.len() && !is_ws_char(s[k])
                invariant
                    i <= k <= s.len(),
                    forall|j: int| i <= j < k ==> !is_ws(s@[j]),
                decreases s.len() - k,
            {
                k += 1;
            }
            proof {
                lemma_word_len(rest, k - i);
            }
            let ghost old_v = views(out@);
            let word = copy_range(s, i, k);
            assert(rest.take(k - i) =~= word@);
            assert(rest.skip(k - i) =~= s@.skip(k as int));
            out.push(word);
            assert(views(out@) =~= old_v.push(word@));
            i = k;
        }
    }
    assert(s@.skip(i as int) =~= Seq::<char>::empty());
    assert(views(out@) + words(s@.skip(i as int)) =~= views(out@));
    out
}

/// `s` without its leading whitespace.
pub open spec fn trim_start(s: Seq<char>) -> Seq<char>
    decreases s.len(),
{
    if s.len() > 0 && is_ws(s[0]) {
        trim_start(s.drop_first())
    } else {
        s
    }
}

/// `s` without its trailing whitespace.
pub open spec fn trim_end(s: Seq<char>) -> Seq<char>
    decreases s.len(),
{
    if s.len() > 0 && is_ws(s.last()) {
        trim_end(s.drop_last())
    } else {
        s
    }
}

/// `str::trim`.
pub open spec fn trim(s: Seq<char>) -> Seq<char> {
    trim_end(trim_start(s))
}

proof fn lemma_trim_start(s: Seq<char>, a: int)
    requires
        0 <= a <= s.len(),
        forall|j: int| 0 <= j < a ==> is_ws(s[j]),
        a == s.len() || !is_ws(s[a]),
    ensures
        trim_start(s) == s.skip(a),
    decreases a,
{
    if a > 0 {
        lemma_trim_start(s.drop_first(), a - 1);
        assert(s.drop_first().skip(a - 1) =~= s.skip(a));
    } else {
        assert(s.skip(0) =~= s);
    }
}

proof fn lemma_trim_end(s: Seq<char>, b: int)
    requires
        0 <= b <= s.len(),
        forall|j: int| b <= j < s.len() ==> is_ws(s[j]),
        b == 0 || !is_ws(s[b - 1]),
    ensures
        trim_end(s) == s.take(b),
    decreases s.len() - b,
{
    if b < s.len() {
        lemma_trim_end(s.drop_last(), b);
        assert(s.drop_last().take(b) =~= s.take(b));
    } else {
        assert(s.take(b) =~= s);
    }
}

/// `s` without leading and trailing whitespace, as `str::trim` gives it.
pub fn trimmed(s: &Vec<char>) -> (out: Vec<char>)
    ensures
        out@ == trim(s@),
{
    let mut a: usize = 0;
    while a < s.len() && is_ws_char(s[a])
        invariant
            a <= s.len(),
            forall|j: int| 0 <= j < a ==> is_ws(s@[j]),
        decreases s.len() - a,
    {
        a += 1;
    }
    let mut b: usize = s.len();
    while b > a && is_ws_char(s[b - 1])
        invariant
            a <= b <= s.len(),
            forall|j: int| b <= j < s.len() ==> is_ws(s@[j]),
        decreases b,
    {
        b -= 1;
    }
    proof {
        lemma_trim_start(s@, a as int);
        let t = s@.skip(a as int);
        lemma_trim_end(t, b - a);
        assert(t.take(b - a) =~= s@.subrange(a as int, b as int));
    }
    copy_range(s, a, b)
}

/// `str::split_once(c)`: the text before and after the first `c`, if there is one.
pub open spec fn split_once(s: Seq<char>, c: char) -> Option<(Seq<char>, Seq<char>)> {
    let k = find_len(s, c);
    if k < s.len() {
        Some((s.take(k as int), s.skip(k + 1 as int)))
    } else {
        None
    }
}

pub fn split_once_of(s: &Vec<char>, c: char) -> (out: Option<(Vec<char>, Vec<char>)>)
    ensures
        match out {
            Some((a, b)) => split_once(s@, c) == Some((a@, b@)),
            None => split_once(s@, c) is None,
        },
{
    let k = find_from(s, 0, c);
    assert(s@.skip(0) =~= s@);
    if k < s.len() {
        let a = copy_range(s, 0, k);
        let b = copy_range(s, k + 1, s.len());
        assert(a@ =~= s@.take(k as int));
        assert(b@ =~= s@.skip(k + 1));
        Some((a, b))
    } else {
        None
    }
}

/// `str::split(c)`: the pieces between the `c`s, empty ones included.
pub open spec fn split(s: Seq<char>, c: char) -> Seq<Seq<char>>
    decreases s.len(),
{
    let k = find_len(s, c);
    if k < s.len() {
        seq![s.take(k as int)] + split(s.skip(k + 1 as int), c)
    } else {
        seq![s]
    }
}

/// The pieces of `s` between the `c`s, as `str::split` gives them.
pub fn split_of(s: &Vec<char>, c: char) -> (out: Vec<Vec<char>>)
    ensures
        views(out@) == split(s@, c),
{
    let mut out: Vec<Vec<char>> = Vec::new();
    let mut start: usize = 0;
    assert(s@.skip(0) =~= s@);
    assert(views(out@) + split(s@, c) =~= split(s@, c));
    loop
        invariant
            start <= s.len(),
            split(s@, c) == views(out@) + split(s@.skip(start as int), c),
        decreases s.len() - start,
    {
        let ghost rest = s@.skip(start as int);
        let ghost old_v = views(out@);
        let k = find_from(s, start, c);
        let piece = copy_range(s, start, k);
        assert(rest.take(k - start) =~= piece@);
        if k < s.len() {
            assert(rest.skip(k - start + 1) =~= s@.skip(k + 1));
            out.push(piece);
            assert(views(out@) =~= old_v.push(piece@));
            start = k + 1;
        } else {
            assert(piece@ =~= rest);
            out.push(piece);
            assert(views(out@) =~= old_v.push(piece@));
            assert(views(out@) =~= old_v + seq![rest]);
            return out;
        }
    }
}

/// Whether `s` begins with `p`.
pub fn starts_with(s: &Vec<char>, p: &Vec<char>) -> (b: bool)
    ensures
        b == p@.is_prefix_of(s@),
{
    if p.len() > s.len() {
        return false;
    }
    let mut i: usize = 0;
    while i < p.len()
        invariant
            i <= p.len() <= s.len(),
            forall|j: int| 0 <= j < i ==> p@[j] == s@[j],
        decreases p.len() - i,
    {
        if p[i] != s[i] {
            return false;
        }
        i += 1;
    }
    assert(p@ =~= s@.subrange(0, p@.len() as int));
    true
}

/// Whether `p` occurs in `s` at position `i`.
pub open spec fn occurs_at(s: Seq<char>, p: Seq<char>, i: int) -> bool {
    0 <= i && i + p.len() <= s.len() && s.subrange(i, i + p.len()) == p
}

/// `str::contains` with a text pattern.
pub open spec fn contains(s: Seq<char>, p: Seq<char>) -> bool {
    exists|i: int| occurs_at(s, p, i)
}

pub fn contains_of(s: &Vec<char>, p: &Vec<char>) -> (b: bool)
    ensures
        b == contains(s@, p@),
{
    if p.len() > s.len() {
        return false;
    }
    let mut i: usize = 0;
    while i <= s.len() - p.len()
        invariant
            p.len() <= s.len(),
            i <= s.len() - p.len() + 1,
            forall|k: int| 0 <= k < i ==> !occurs_at(s@, p@, k),
        decreases s.len() - i,
    {
        let mut j: usize = 0;
        let mut same = true;
        while j < p.len()
            invariant
                i + p.len() <= s.len(),
                j <= p.len(),
                same == (forall|m: int| 0 <= m < j ==> p@[m] == s@[i + m]),
            decreases p.len() - j,
        {
            if p[j] != s[i + j] {
                same = false;
            }
            j += 1;
        }
        if same {
            assert(s@.subrange(i as int, i + p.len()) =~= p@);
            assert(occurs_at(s@, p@, i as int));
            return true;
        }
        assert(!occurs_at(s@, p@, i as int)) by {
            if s@.subrange(i as int, i + p.len()) == p@ {
                let m = choose|m: int| 0 <= m < p.len() && p@[m] != s@[i + m];
                assert(s@.subrange(i as int, i + p.len())[m] == s@[i + m]);
            }
        }
        i += 1;
    }
    assert forall|k: int| !occurs_at(s@, p@, k) by {
        if 0 <= k && k < i {
        }
    }
    false
}


/// Value of `c` as a digit of base 16 or less (`0-9`, `a-f`, `A-F`); -1 for any other
/// character.
pub open spec fn digit_value(c: char) -> int {
    let u = c as u32;
    if 0x30 <= u <= 0x39 {
        u - 0x30
    } else if 0x61 <= u <= 0x66 {
        u - 0x61 + 10
    } else if 0x41 <= u <= 0x46 {
        u - 0x41 + 10
    } else {
        -1
    }
}

pub fn digit_value_of(c: char) -> (d: i64)
    ensures
        d == digit_value(c),
{
    let u = c as u32;
    if 0x30 <= u && u <= 0x39 {
        (u - 0x30) as i64
    } else if 0x61 <= u && u <= 0x66 {
        (u - 0x61 + 10) as i64
    } else if 0x41 <= u && u <= 0x46 {
        (u - 0x41 + 10) as i64
    } else {
        -1
    }
}

/// Whether every character of `s` is a digit of base `radix`.
pub open spec fn all_digits(s: Seq<char>, radix: int) -> bool {
    forall|i: int| 0 <= i < s.len() ==> 0 <= #[trigger] digit_value(s[i]) < radix
}

/// The number that the digits `s` write in base `radix`.
pub open spec fn radix_value(s: Seq<char>, radix: int) -> int
    decreases s.len(),
{
    if s.len() == 0 {
        0
    } else {
        radix_value(s.drop_last(), radix) * radix + digit_value(s.last())
    }
}

/// The digits of an unsigned number: without one leading `+`, as `from_str_radix`
/// accepts it.
pub open spec fn unsigned_digits(s: Seq<char>) -> Seq<char> {
    if s.len() > 0 && s[0] == '+' {
        s.drop_first()
    } else {
        s
    }
}

/// `from_str_radix` (and `FromStr`, with radix 10) for an unsigned integer type whose
/// largest value is `max`: one or more digits after an optional `+`, and no overflow.
pub open spec fn parse_unsigned(s: Seq<char>, radix: int, max: int) -> Option<int> {
    let d = unsigned_digits(s);
    if d.len() > 0 && all_digits(d, radix) && radix_value(d, radix) <= max {
        Some(radix_value(d, radix))
    } else {
        None
    }
}

pub proof fn lemma_radix_value_nonneg(s: Seq<char>, radix: int)
    requires
        2 <= radix,
        all_digits(s, radix),
    ensures
        radix_value(s, radix) >= 0,
    decreases s.len(),
{
    if s.len() > 0 {
        assert(all_digits(s.drop_last(), radix)) by {
            assert forall|i: int| 0 <= i < s.drop_last().len() implies 0 <= #[trigger] digit_value(
                s.drop_last()[i],
            ) < radix by {
                assert(s.drop_last()[i] == s[i]);
            }
        }
        lemma_radix_value_nonneg(s.drop_last(), radix);
        let v = radix_value(s.drop_last(), radix);
        assert(v * radix >= 0) by (nonlinear_arith)
            requires
                v >= 0,
                radix >= 2,
        ;
        assert(0 <= digit_value(s[s.len() - 1]));
    }
}

proof fn lemma_radix_value_prefix(s: Seq<char>, radix: int, k: int)
    requires
        2 <= radix,
        0 <= k <= s.len(),
        all_digits(s, radix),
    ensures
        radix_value(s.take(k), radix) <= radix_value(s, radix),
    decreases s.len() - k,
{
    if k < s.len() {
        let t = s.drop_last();
        assert(all_digits(t, radix)) by {
            assert forall|i: int| 0 <= i < t.len() implies 0 <= #[trigger] digit_value(t[i])
                < radix by {
                assert(t[i] == s[i]);
            }
        }
        lemma_radix_value_prefix(t, radix, k);
        assert(t.take(k) =~= s.take(k));
        lemma_radix_value_nonneg(t, radix);
        let v = radix_value(t, radix);
        assert(v * radix >= v) by (nonlinear_arith)
            requires
                v >= 0,
                radix >= 2,
        ;
        assert(0 <= digit_value(s[s.len() - 1]));
    } else {
        assert(s.take(k) =~= s);
    }
}

/// An unsigned integer of base `radix` no larger than `max`, as `from_str_radix` reads
/// it.
pub fn parse_radix(s: &Vec<char>, radix: u64, max: u64) -> (out: Option<u64>)
    requires
        2 <= radix <= 16,
    ensures
        match out {
            Some(v) => parse_unsigned(s@, radix as int, max as int) == Some(v as int),
            None => parse_unsigned(s@, radix as int, max as int) is None,
        },
{
    let ghost d = unsigned_digits(s@);
    let mut i: usize = 0;
    if s.len() > 0 && s[0] == '+' {
        i = 1;
    }
    assert(d =~= s@.skip(i as int));
    if i >= s.len() {
        return None;
    }
    let start = i;
    let mut v: u64 = 0;
    assert(d.take(0) =~= Seq::<char>::empty());
    while i < s.len()
        invariant
            start <= i <= s.len(),
            d == s@.skip(start as int),
            d == unsigned_digits(s@),
            2 <= radix <= 16,
            v <= max,
            all_digits(d.take(i - start), radix as int),
            v == radix_value(d.take(i - start), radix as int),
        decreases s.len() - i,
    {
        let ghost pre = d.take(i - start);
        let ghost next = d.take(i - start + 1);
        assert(next.drop_last() =~= pre);
        assert(next.last() == s@[i as int]);
        let dv = digit_value_of(s[i]);
        if dv < 0 || dv >= radix as i64 {
            assert(!all_digits(d, radix as int)) by {
                assert(d[i - start] == s@[i as int]);
            }
            return None;
        }
        assert(all_digits(next, radix as int)) by {
            assert forall|j: int| 0 <= j < next.len() implies 0 <= #[trigger] digit_value(next[j])
                < radix by {
                if j < next.len() - 1 {
                    assert(next[j] == pre[j]);
                }
            }
        }
        let m = v.checked_mul(radix);
        if m.is_none() {
            proof {
                lemma_no_parse_past(d, radix as int, max as int, i - start + 1);
            }
            return None;
        }
        let w = m.unwrap().checked_add(dv as u64);
        if w.is_none() || w.unwrap() > max {
            proof {
                lemma_no_parse_past(d, radix as int, max as int, i - start + 1);
            }
            return None;
        }
        v = w.unwrap();
        i += 1;
    }
    assert(d.take(i - start) =~= d);
    Some(v)
}

proof fn lemma_no_parse_past(d: Seq<char>, radix: int, max: int, k: int)
    requires
        2 <= radix,
        0 < k <= d.len(),
        radix_value(d.take(k), radix) > max,
    ensures
        !(all_digits(d, radix) && radix_value(d, radix) <= max),
{
    if all_digits(d, radix) {
        lemma_radix_value_prefix(d, radix, k);
    }
}

/// `str::parse::<u64>()`.
pub fn parse_u64(s: &Vec<char>) -> (out: Option<u64>)
    ensures
        match out {
            Some(v) => parse_unsigned(s@, 10, u64::MAX as int) == Some(v as int),
            None => parse_unsigned(s@, 10, u64::MAX as int) is None,
        },
{
    parse_radix(s, 10, u64::MAX)
}

/// `str::parse::<u32>()`.
pub fn parse_u32(s: &Vec<char>) -> (out: Option<u32>)
    ensures
        match out {
            Some(v) => parse_unsigned(s@, 10, u32::MAX as int) == Some(v as int),
            None => parse_unsigned(s@, 10, u32::MAX as int) is None,
        },
{
    match parse_radix(s, 10, u32::MAX as u64) {
        Some(v) => Some(v as u32),
        None => None,
    }
}


/// `String::push`: appends `c` to the end of `s`.
#[verifier::external_body]
pub(crate) fn push_char(s: &mut String, c: char)
    ensures
        final(s)@ == old(s)@.push(c),
{
    s.push(c);
}

/// A `String` holding the characters of `v`.
pub fn string_of(v: &Vec<char>) -> (out: String)
    ensures
        out@ == v@,
{
    let mut out = String::new();
    let mut i: usize = 0;
    while i < v.len()
        invariant
            i <= v.len(),
            out@ == v@.take(i as int),
        decreases v.len() - i,
    {
        push_char(&mut out, v[i]);
        i += 1;
        assert(out@ =~= v@.take(i as int));
    }
    assert(v@.take(i as int) =~= v@);
    out
}

/// Appends the characters of `s` to `out`.
pub fn push_str(out: &mut Vec<char>, s: &str)
    ensures
        final(out)@ == old(out)@ + s@,
{
    let v = chars_of(s);
    let mut i: usize = 0;
    while i < v.len()
        invariant
            i <= v.len(),
            v@ == s@,
            out@ == old(out)@ + v@.take(i as int),
        decreases v.len() - i,
    {
        out.push(v[i]);
        i += 1;
        assert(out@ =~= old(out)@ + v@.take(i as int));
    }
    assert(v@.take(i as int) =~= v@);
}

/// The decimal digits of `n`, without leading zeros (`0` is written `0`).
pub open spec fn decimal(n: nat) -> Seq<char>
    decreases n,
{
    if n < 10 {
        seq![digit_char(n)]
    } else {
        decimal(n / 10).push(digit_char(n % 10))
    }
}

pub open spec fn digit_char(d: nat) -> char {
    (d + 0x30) as char
}

/// Appends the decimal digits of `n` to `out`, as `format!("{n}")` writes them.
pub fn push_decimal(out: &mut Vec<char>, n: u64)
    ensures
        final(out)@ == old(out)@ + decimal(n as nat),
    decreases n,
{
    if n >= 10 {
        push_decimal(out, n / 10);
    }
    let d = (n % 10) as u8;
    let c = (d + 0x30) as char;
    out.push(c);
    assert(out@ =~= old(out)@ + decimal(n as nat));
}


/// `str::strip_prefix`: what follows `p` when `s` begins with it.
pub open spec fn strip_prefix(s: Seq<char>, p: Seq<char>) -> Option<Seq<char>> {
    if p.is_prefix_of(s) {
        Some(s.skip(p.len() as int))
    } else {
        None
    }
}

pub fn strip_prefix_of(s: &Vec<char>, p: &Vec<char>) -> (out: Option<Vec<char>>)
    ensures
        match out {
            Some(r) => strip_prefix(s@, p@) == Some(r@),
            None => strip_prefix(s@, p@) is None,
        },
{
    if starts_with(s, p) {
        let r = copy_range(s, p.len(), s.len());
        assert(r@ =~= s@.skip(p@.len() as int));
        Some(r)
    } else {
        None
    }
}

/// `str::strip_suffix`: what precedes `p` when `s` ends with it.
pub open spec fn strip_suffix(s: Seq<char>, p: Seq<char>) -> Option<Seq<char>> {
    if p.len() <= s.len() && s.skip(s.len() - p.len()) == p {
        Some(s.take(s.len() - p.len()))
    } else {
        None
    }
}

pub fn strip_suffix_of(s: &Vec<char>, p: &Vec<char>) -> (out: Option<Vec<char>>)
    ensures
        match out {
            Some(r) => strip_suffix(s@, p@) == Some(r@),
            None => strip_suffix(s@, p@) is None,
        },
{
    if p.len() > s.len() {
        return None;
    }
    let start = s.len() - p.len();
    let tail = copy_range(s, start, s.len());
    assert(tail@ =~= s@.skip(start as int));
    let mut i: usize = 0;
    while i < p.len()
        invariant
            i <= p.len() == tail.len(),
            p.len() <= s.len(),
            start == s.len() - p.len(),
            tail@ == s@.skip(start as int),
            forall|j: int| 0 <= j < i ==> p@[j] == tail@[j],
        decreases p.len() - i,
    {
        if p[i] != tail[i] {
            assert(tail@[i as int] != p@[i as int]);
            assert(tail@ != p@);
            return None;
        }
        i += 1;
    }
    assert(tail@ =~= p@);
    let r = copy_range(s, 0, start);
    assert(r@ =~= s@.take(start as int));
    Some(r)
}

/// Index of the last `c` in `s`, or -1.
pub open spec fn last_index(s: Seq<char>, c: char) -> int
    decreases s.len(),
{
    if s.len() == 0 {
        -1
    } else if s.last() == c {
        s.len() - 1
    } else {
        last_index(s.drop_last(), c)
    }
}

proof fn lemma_last_index(s: Seq<char>, c: char, k: int)
    requires
        -1 <= k < s.len(),
        forall|j: int| k < j < s.len() ==> s[j] != c,
        k == -1 || s[k] == c,
    ensures
        last_index(s, c) == k,
    decreases s.len(),
{
    if s.len() > 0 && k < s.len() - 1 {
        lemma_last_index(s.drop_last(), c, k);
    }
}

/// `str::rfind` of a character: the index of its last occurrence.
pub fn rfind_of(s: &Vec<char>, c: char) -> (out: Option<usize>)
    ensures
        match out {
            Some(k) => last_index(s@, c) == k as int && k < s.len(),
            None => last_index(s@, c) == -1,
        },
{
    let mut k = s.len();
    while k > 0 && s[k - 1] != c
        invariant
            k <= s.len(),
            forall|j: int| k <= j < s.len() ==> s@[j] != c,
        decreases k,
    {
        k -= 1;
    }
    if k == 0 {
        proof {
            lemma_last_index(s@, c, -1);
        }
        None
    } else {
        proof {
            lemma_last_index(s@, c, k - 1);
        }
        Some(k - 1)
    }
}


/// A `u64` field as `parse().unwrap_or(0)` reads it.
pub open spec fn num_or_zero(w: Seq<char>) -> int {
    match parse_unsigned(w, 10, u64::MAX as int) {
        Some(v) => v,
        None => 0,
    }
}

/// `parse::<u64>().unwrap_or(0)`.
pub fn u64_or_zero(w: &Vec<char>) -> (v: u64)
    ensures
        v == num_or_zero(w@),
{
    match parse_u64(w) {
        Some(v) => v,
        None => 0,
    }
}


pub proof fn lemma_parse_nonneg(s: Seq<char>, radix: int, max: int)
    requires
        2 <= radix,
    ensures
        parse_unsigned(s, radix, max) matches Some(v) ==> v >= 0,
        num_or_zero(s) >= 0,
{
    if all_digits(unsigned_digits(s), radix) {
        lemma_radix_value_nonneg(unsigned_digits(s), radix);
    }
    if all_digits(unsigned_digits(s), 10) {
        lemma_radix_value_nonneg(unsigned_digits(s), 10);
    }
}


/// What `String::from_utf8_lossy` makes of `bytes`.
pub uninterp spec fn utf8_lossy(bytes: Seq<u8>) -> Seq<char>;

/// `String::from_utf8_lossy(bytes).into_owned()`. The contract names the result and
/// states of it only what the documentation of `from_utf8_lossy` gives plainly: bytes
/// that are valid UTF-8 come back as the text they encode. How invalid sequences are
/// replaced by U+FFFD is left unsaid.
#[verifier::external_body]
pub(crate) fn from_utf8_lossy(bytes: &[u8]) -> (s: String)
    ensures
        s@ == utf8_lossy(bytes@),
        vstd::utf8::valid_utf8(bytes@) ==> s@ == vstd::utf8::decode_utf8(bytes@),
{
    String::from_utf8_lossy(bytes).into_owned()
}

/// The characters that encode to a backslash byte are backslashes.
proof fn lemma_scalar_backslash(c: u32)
    requires
        vstd::utf8::is_scalar(c),
        c != 0x5c,
    ensures
        !vstd::utf8::encode_scalar(c).contains(0x5cu8),
{
    let e = vstd::utf8::encode_scalar(c);
    assert(vstd::utf8::last_continuation_byte(c) != 0x5cu8) by (bit_vector);
    assert(vstd::utf8::second_last_continuation_byte(c) != 0x5cu8) by (bit_vector);
    assert(vstd::utf8::third_last_continuation_byte(c) != 0x5cu8) by (bit_vector);
    assert(vstd::utf8::leading_byte_width_2(c) != 0x5cu8) by (bit_vector);
    assert(vstd::utf8::leading_byte_width_3(c) != 0x5cu8) by (bit_vector);
    assert(vstd::utf8::leading_byte_width_4(c) != 0x5cu8) by (bit_vector);
    if vstd::utf8::has_width_1_encoding(c) {
        assert(vstd::utf8::leading_byte_width_1(c) != 0x5cu8) by (bit_vector)
            requires
                c <= 0x7f,
                c != 0x5c,
        ;
        assert(e == seq![vstd::utf8::leading_byte_width_1(c)]);
    }
    assert forall|i: int| 0 <= i < e.len() implies e[i] != 0x5c by {}
}

/// Text without a backslash encodes to bytes without one.
pub proof fn lemma_no_backslash_bytes(chars: Seq<char>)
    requires
        !chars.contains('\\'),
    ensures
        !vstd::utf8::encode_utf8(chars).contains(0x5cu8),
    decreases chars.len(),
{
    if chars.len() > 0 {
        let rest = chars.drop_first();
        assert(!rest.contains('\\')) by {
            if rest.contains('\\') {
                let i = choose|i: int| 0 <= i < rest.len() && rest[i] == '\\';
                assert(chars[i + 1] == '\\');
            }
        }
        lemma_no_backslash_bytes(rest);
        vstd::utf8::char_is_scalar(chars[0]);
        assert(chars[0] != '\\') by {
            assert(chars[0] == chars[0]);
            if chars[0] == '\\' {
                assert(chars.contains('\\'));
            }
        }
        assert((chars[0] as u32) != 0x5c) by {
            vstd::utf8::char_u32_cast(chars[0], chars[0] as u32);
            if (chars[0] as u32) == 0x5c {
                assert(((chars[0] as u32) as char) == '\\');
            }
        }
        lemma_scalar_backslash(chars[0] as u32);
        let a = vstd::utf8::encode_scalar(chars[0] as u32);
        let b = vstd::utf8::encode_utf8(rest);
        assert(vstd::utf8::encode_utf8(chars) == a + b);
        if (a + b).contains(0x5cu8) {
            let i = choose|i: int| 0 <= i < (a + b).len() && (a + b)[i] == 0x5cu8;
            if i < a.len() {
                assert(a[i] == 0x5c);
            } else {
                assert(b[i - a.len()] == 0x5c);
            }
        }
    }
}


/// `parts.join(sep)`.
pub open spec fn join(parts: Seq<Seq<char>>, sep: Seq<char>) -> Seq<char>
    decreases parts.len(),
{
    if parts.len() == 0 {
        seq![]
    } else if parts.len() == 1 {
        parts[0]
    } else {
        parts[0] + sep + join(parts.drop_first(), sep)
    }
}

proof fn lemma_join_push(parts: Seq<Seq<char>>, sep: Seq<char>, p: Seq<char>)
    ensures
        join(parts.push(p), sep) == if parts.len() == 0 {
            p
        } else {
            join(parts, sep) + sep + p
        },
    decreases parts.len(),
{
    let l2 = parts.push(p);
    if parts.len() == 0 {
        assert(l2[0] == p);
    } else if parts.len() == 1 {
        assert(l2.drop_first() =~= seq![p]);
        assert(join(l2.drop_first(), sep) == p);
        assert(l2[0] == parts[0]);
        assert(join(l2, sep) =~= join(parts, sep) + sep + p);
    } else {
        lemma_join_push(parts.drop_first(), sep, p);
        assert(l2.drop_first() =~= parts.drop_first().push(p));
        assert(l2[0] == parts[0]);
        assert(join(l2, sep) =~= join(parts, sep) + sep + p);
    }
}

/// The pieces of `parts` with `sep` between them.
pub fn join_of(parts: &Vec<Vec<char>>, sep: &str) -> (out: Vec<char>)
    ensures
        out@ == join(views(parts@), sep@),
{
    let mut out: Vec<char> = Vec::new();
    let mut i: usize = 0;
    assert(views(parts@).take(0) =~= Seq::<Seq<char>>::empty());
    while i < parts.len()
        invariant
            i <= parts.len(),
            out@ == join(views(parts@).take(i as int), sep@),
        decreases parts.len() - i,
    {
        proof {
            lemma_join_push(views(parts@).take(i as int), sep@, parts@[i as int]@);
            assert(views(parts@).take(i as int).push(parts@[i as int]@) =~= views(parts@).take(
                i + 1,
            ));
        }
        if i > 0 {
            push_str(&mut out, sep);
        }
        let ghost before = out@;
        let mut k: usize = 0;
        while k < parts[i].len()
            invariant
                i < parts.len(),
                k <= parts@[i as int].len(),
                out@ == before + parts@[i as int]@.take(k as int),
            decreases parts@[i as int].len() - k,
        {
            out.push(parts[i][k]);
            k += 1;
            assert(out@ =~= before + parts@[i as int]@.take(k as int));
        }
        assert(parts@[i as int]@.take(k as int) =~= parts@[i as int]@);
        i += 1;
    }
    assert(views(parts@).take(i as int) =~= views(parts@));
    out
}

/// `c` in ASCII lowercase.
pub open spec fn ascii_lower(c: char) -> char {
    if 'A' <= c <= 'Z' {
        ((c as u32) + 32) as char
    } else {
        c
    }
}

pub fn lower_char(c: char) -> (out: char)
    ensures
        out == ascii_lower(c),
{
    if 'A' <= c && c <= 'Z' {
        ((c as u8) + 32) as char
    } else {
        c
    }
}

} // verus!
