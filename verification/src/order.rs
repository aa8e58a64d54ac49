//! Orders of the listings of `/sys` and `/proc`: by number, by name, and partitions
//! by length then name. Each sort is an insertion sort that keeps equal items in
//! their order.

use vstd::prelude::*;

verus! {

broadcast use vstd::seq_lib::group_seq_properties;

/// Whether the keys of `s` never decrease.
pub open spec fn keys_sorted<T>(s: Seq<(u32, T)>) -> bool {
    forall|i: int, j: int| 0 <= i < j < s.len() ==> s[i].0 <= s[j].0
}

proof fn lemma_insert_multiset<T>(s: Seq<T>, i: int, x: T)
    requires
        0 <= i <= s.len(),
    ensures
        s.insert(i, x).to_multiset() == s.to_multiset().insert(x),
{
    let a = s.subrange(0, i);
    let b = s.subrange(i, s.len() as int);
    assert(s =~= a + b);
    vstd::seq_lib::lemma_multiset_commutative(a, b);
    vstd::seq_lib::lemma_multiset_commutative(a.push(x), b);
    assert(s.insert(i, x) =~= a.push(x) + b);
}

/// Number of leading items of `s` whose number is below `k`.
pub open spec fn lead_below<T>(s: Seq<(u32, T)>, k: u32) -> nat
    decreases s.len(),
{
    if s.len() > 0 && s[0].0 < k {
        1 + lead_below(s.drop_first(), k)
    } else {
        0
    }
}

/// The entries of `s` by number, smallest first; entries with the same number keep their
/// order. Each entry goes before the entries that follow it and have the same or a
/// larger number.
pub open spec fn numbered_order<T>(s: Seq<(u32, T)>) -> Seq<(u32, T)>
    decreases s.len(),
{
    if s.len() == 0 {
        seq![]
    } else {
        let r = numbered_order(s.drop_first());
        r.insert(lead_below(r, s[0].0) as int, s[0])
    }
}

proof fn lemma_lead_below<T>(s: Seq<(u32, T)>, k: u32, p: int)
    requires
        0 <= p <= s.len(),
        forall|j: int| 0 <= j < p ==> #[trigger] s[j].0 < k,
        p == s.len() || s[p].0 >= k,
    ensures
        lead_below(s, k) == p,
    decreases p,
{
    if p > 0 {
        assert forall|j: int| 0 <= j < p - 1 implies #[trigger] s.drop_first()[j].0 < k by {
            assert(s.drop_first()[j] == s[j + 1]);
        }
        lemma_lead_below(s.drop_first(), k, p - 1);
    }
}

/// The entries ordered by their number; entries with the same number keep their order.
pub fn sort_numbered<T>(v: Vec<(u32, T)>) -> (out: Vec<(u32, T)>)
    ensures
        out@ == numbered_order(v@),
        keys_sorted(out@),
        out@.to_multiset() == v@.to_multiset(),
{
    let mut out: Vec<(u32, T)> = Vec::new();
    let mut rest = v;
    let ghost orig = rest@;
    // Take the entries from the back, so that each is removed cheaply; each new one
    // goes before the first equal key, which keeps equal keys in their order.
    while rest.len() > 0
        invariant
            rest@ == orig.take(rest.len() as int),
            rest.len() <= orig.len(),
            keys_sorted(out@),
            out@.to_multiset() == orig.skip(rest.len() as int).to_multiset(),
            out@ == numbered_order(orig.skip(rest.len() as int)),
        decreases rest.len(),
    {
        let ghost before = out@;
        let ghost n = rest.len();
        let e = rest.pop().unwrap();
        assert(orig.skip(n - 1).drop_first() =~= orig.skip(n as int));
        assert(orig.skip(n - 1)[0] == e);
        assert(orig.skip(n - 1) =~= seq![e] + orig.skip(n as int));
        assert(rest@ =~= orig.take(n - 1));
        let mut p: usize = 0;
        while p < out.len() && out[p].0 < e.0
            invariant
                p <= out.len(),
                forall|k: int| 0 <= k < p ==> out@[k].0 < e.0,
            decreases out.len() - p,
        {
            p += 1;
        }
        proof {
            lemma_insert_multiset(out@, p as int, e);
            vstd::seq_lib::lemma_multiset_commutative(seq![e], orig.skip(n as int));
            lemma_lead_below(out@, e.0, p as int);
        }
        out.insert(p, e);
        assert(out@ == before.insert(p as int, e));
        assert(keys_sorted(out@)) by {
            assert forall|i: int, j: int| 0 <= i < j < out@.len() implies out@[i].0 <= out@[j].0 by {
                let bi = if i < p { i } else if i == p { -1 } else { i - 1 };
                let bj = if j < p { j } else if j == p { -1 } else { j - 1 };
                if bi >= 0 && bj >= 0 {
                    assert(out@[i] == before[bi] && out@[j] == before[bj]);
                } else if bi < 0 {
                    assert(out@[j] == before[bj]);
                    assert(before[p as int].0 >= e.0);
                } else {
                    assert(out@[i] == before[bi]);
                }
            }
        }
        assert(out@.to_multiset() =~= orig.skip(n - 1).to_multiset());
    }
    assert(orig.skip(0) =~= orig);
    out
}

/// `a` comes before `b` in lexicographic order of their characters, which is the order
/// of `String`: UTF-8 keeps the order of code points.
pub open spec fn chars_lt(a: Seq<char>, b: Seq<char>) -> bool
    decreases a.len(),
{
    if a.len() == 0 {
        b.len() > 0
    } else if b.len() == 0 {
        false
    } else if a[0] != b[0] {
        (a[0] as u32) < (b[0] as u32)
    } else {
        chars_lt(a.drop_first(), b.drop_first())
    }
}

proof fn lemma_chars_lt_asym(a: Seq<char>, b: Seq<char>)
    ensures
        chars_lt(a, b) ==> !chars_lt(b, a),
    decreases a.len(),
{
    if a.len() > 0 && b.len() > 0 && a[0] == b[0] {
        lemma_chars_lt_asym(a.drop_first(), b.drop_first());
    }
}

pub fn chars_less(a: &Vec<char>, b: &Vec<char>) -> (r: bool)
    ensures
        r == chars_lt(a@, b@),
{
    let mut i: usize = 0;
    while i < a.len() && i < b.len() && a[i] == b[i]
        invariant
            i <= a.len(),
            i <= b.len(),
            chars_lt(a@, b@) == chars_lt(a@.skip(i as int), b@.skip(i as int)),
        decreases a.len() - i,
    {
        assert(a@.skip(i as int).drop_first() =~= a@.skip(i + 1));
        assert(b@.skip(i as int).drop_first() =~= b@.skip(i + 1));
        i += 1;
    }
    if i == a.len() {
        i < b.len()
    } else if i == b.len() {
        false
    } else {
        (a[i] as u32) < (b[i] as u32)
    }
}

/// Whether no item of `s` comes before the one it follows, by `lt`.
pub open spec fn sorted_by(s: Seq<Seq<char>>, lt: spec_fn(Seq<char>, Seq<char>) -> bool) -> bool {
    forall|i: int| 0 <= i < s.len() - 1 ==> !lt(#[trigger] s[i + 1], s[i])
}

/// The order of partition names: by length in bytes, then by name; `sda2` comes
/// before `sda10`.
pub open spec fn partition_lt(a: Seq<char>, b: Seq<char>) -> bool {
    let la = vstd::utf8::encode_utf8(a).len();
    let lb = vstd::utf8::encode_utf8(b).len();
    la < lb || (la == lb && chars_lt(a, b))
}

pub open spec fn string_views(v: Seq<String>) -> Seq<Seq<char>> {
    v.map_values(|s: String| s@)
}

/// Names in lexicographic order, like `Vec<String>::sort`.
pub fn sort_names(v: Vec<String>) -> (out: Vec<String>)
    ensures
        sorted_by(string_views(out@), |a: Seq<char>, b: Seq<char>| chars_lt(a, b)),
        string_views(out@).to_multiset() == string_views(v@).to_multiset(),
{
    sort_strings(v, false)
}

/// Partition names by length in bytes, then by name, like
/// `sort_by_key(|p| (p.len(), p.clone()))`.
pub fn sort_partitions(v: Vec<String>) -> (out: Vec<String>)
    ensures
        sorted_by(string_views(out@), |a: Seq<char>, b: Seq<char>| partition_lt(a, b)),
        string_views(out@).to_multiset() == string_views(v@).to_multiset(),
{
    sort_strings(v, true)
}

pub open spec fn strings_lt(by_len: bool, a: Seq<char>, b: Seq<char>) -> bool {
    if by_len {
        partition_lt(a, b)
    } else {
        chars_lt(a, b)
    }
}

fn strings_less(by_len: bool, a: &String, b: &String) -> (r: bool)
    ensures
        r == strings_lt(by_len, a@, b@),
{
    let ca = crate::text::chars_of(a.as_str());
    let cb = crate::text::chars_of(b.as_str());
    if by_len {
        let la = a.as_str().as_bytes().len();
        let lb = b.as_str().as_bytes().len();
        la < lb || (la == lb && chars_less(&ca, &cb))
    } else {
        chars_less(&ca, &cb)
    }
}

proof fn lemma_strings_lt_asym(by_len: bool, a: Seq<char>, b: Seq<char>)
    ensures
        strings_lt(by_len, a, b) ==> !strings_lt(by_len, b, a),
{
    lemma_chars_lt_asym(a, b);
}

fn sort_strings(v: Vec<String>, by_len: bool) -> (out: Vec<String>)
    ensures
        forall|i: int|
            0 <= i < out@.len() - 1 ==> !strings_lt(by_len, #[trigger] out@[i + 1]@, out@[i]@),
        string_views(out@).to_multiset() == string_views(v@).to_multiset(),
        by_len ==> sorted_by(string_views(out@), |a: Seq<char>, b: Seq<char>| partition_lt(a, b)),
        !by_len ==> sorted_by(string_views(out@), |a: Seq<char>, b: Seq<char>| chars_lt(a, b)),
{
    let mut out: Vec<String> = Vec::new();
    let mut rest = v;
    let ghost orig = rest@;
    while rest.len() > 0
        invariant
            rest@ == orig.take(rest.len() as int),
            rest.len() <= orig.len(),
            forall|i: int|
                0 <= i < out@.len() - 1 ==> !strings_lt(by_len, #[trigger] out@[i + 1]@, out@[i]@),
            string_views(out@).to_multiset() == string_views(orig.skip(rest.len() as int)).to_multiset(),
        decreases rest.len(),
    {
        let ghost before = out@;
        let ghost n = rest.len();
        let e = rest.pop().unwrap();
        assert(orig.skip(n - 1) =~= seq![e] + orig.skip(n as int));
        assert(rest@ =~= orig.take(n - 1));
        // After the items that do not come after `e`: stable among equals.
        let mut p: usize = 0;
        while p < out.len() && !strings_less(by_len, &e, &out[p])
            invariant
                p <= out.len(),
                forall|k: int| 0 <= k < p ==> !strings_lt(by_len, e@, #[trigger] out@[k]@),
            decreases out.len() - p,
        {
            p += 1;
        }
        proof {
            lemma_insert_multiset(string_views(out@), p as int, e@);
            assert(string_views(out@.insert(p as int, e)) =~= string_views(out@).insert(p as int, e@));
            vstd::seq_lib::lemma_multiset_commutative(seq![e@], string_views(orig.skip(n as int)));
            assert(string_views(orig.skip(n - 1)) =~= seq![e@] + string_views(orig.skip(n as int)));
            if p < out.len() {
                lemma_strings_lt_asym(by_len, e@, out@[p as int]@);
            }
        }
        assert(forall|i: int|
            0 <= i < before.len() - 1 ==> !strings_lt(by_len, #[trigger] before[i + 1]@, before[i]@));
        assert(p < before.len() ==> !strings_lt(by_len, before[p as int]@, e@));
        assert(p > 0 ==> !strings_lt(by_len, e@, before[p - 1]@));
        out.insert(p, e);
        assert(out@ == before.insert(p as int, e));
        assert forall|i: int|
            0 <= i < out@.len() - 1 implies !strings_lt(by_len, #[trigger] out@[i + 1]@, out@[i]@) by {
            if i + 1 < p {
                assert(out@[i] == before[i] && out@[i + 1] == before[i + 1]);
                assert(!strings_lt(by_len, before[i + 1]@, before[i]@));
            } else if i + 1 == p {
                assert(out@[i] == before[i] && out@[i + 1] == e);
            } else if i == p {
                assert(out@[i] == e && out@[i + 1] == before[i]);
            } else {
                assert(out@[i] == before[i - 1] && out@[i + 1] == before[i]);
                assert(!strings_lt(by_len, before[(i - 1) + 1]@, before[i - 1]@));
            }
        }
    }
    assert(orig.skip(0) =~= orig);
    assert(sorted_by(string_views(out@), |a: Seq<char>, b: Seq<char>| partition_lt(a, b)) == (
    forall|i: int|
        0 <= i < out@.len() - 1 ==> !partition_lt(#[trigger] string_views(out@)[i + 1], string_views(out@)[i])));
    out
}


/// Number of leading items of `s` whose key is above `k`.
pub open spec fn lead_above<T>(s: Seq<(T, u64)>, k: u64) -> nat
    decreases s.len(),
{
    if s.len() > 0 && s[0].1 > k {
        1 + lead_above(s.drop_first(), k)
    } else {
        0
    }
}

/// The items of `s` by key, largest first; items with equal keys keep their order. Each
/// item goes after the items of larger key that follow it.
pub open spec fn rank_desc<T>(s: Seq<(T, u64)>) -> Seq<(T, u64)>
    decreases s.len(),
{
    if s.len() == 0 {
        seq![]
    } else {
        let r = rank_desc(s.drop_first());
        r.insert(lead_above(r, s[0].1) as int, s[0])
    }
}

proof fn lemma_lead_above<T>(s: Seq<(T, u64)>, k: u64, p: int)
    requires
        0 <= p <= s.len(),
        forall|j: int| 0 <= j < p ==> #[trigger] s[j].1 > k,
        p == s.len() || s[p].1 <= k,
    ensures
        lead_above(s, k) == p,
    decreases p,
{
    if p > 0 {
        assert forall|j: int| 0 <= j < p - 1 implies #[trigger] s.drop_first()[j].1 > k by {
            assert(s.drop_first()[j] == s[j + 1]);
        }
        lemma_lead_above(s.drop_first(), k, p - 1);
    }
}

proof fn lemma_lead_above_bounds<T>(s: Seq<(T, u64)>, k: u64)
    ensures
        lead_above(s, k) <= s.len(),
        forall|j: int| 0 <= j < lead_above(s, k) ==> #[trigger] s[j].1 > k,
        lead_above(s, k) < s.len() ==> s[lead_above(s, k) as int].1 <= k,
    decreases s.len(),
{
    if s.len() > 0 && s[0].1 > k {
        lemma_lead_above_bounds(s.drop_first(), k);
        assert forall|j: int| 0 <= j < lead_above(s, k) implies #[trigger] s[j].1 > k by {
            if j > 0 {
                assert(s[j] == s.drop_first()[j - 1]);
            }
        }
    }
}

/// Ranking puts the largest keys first and keeps every item: it is a permutation.
pub proof fn lemma_rank_desc<T>(s: Seq<(T, u64)>)
    ensures
        forall|i: int, j: int|
            0 <= i < j < rank_desc(s).len() ==> rank_desc(s)[i].1 >= rank_desc(s)[j].1,
        rank_desc(s).to_multiset() == s.to_multiset(),
    decreases s.len(),
{
    if s.len() > 0 {
        let r = rank_desc(s.drop_first());
        let p = lead_above(r, s[0].1) as int;
        lemma_rank_desc(s.drop_first());
        lemma_lead_above_bounds(r, s[0].1);
        lemma_insert_multiset(r, p, s[0]);
        assert(s =~= seq![s[0]] + s.drop_first());
        vstd::seq_lib::lemma_multiset_commutative(seq![s[0]], s.drop_first());
        let out = r.insert(p, s[0]);
        assert forall|i: int, j: int| 0 <= i < j < out.len() implies out[i].1 >= out[j].1 by {
            let bi = if i < p { i } else if i == p { -1 } else { i - 1 };
            let bj = if j < p { j } else if j == p { -1 } else { j - 1 };
            if bi >= 0 && bj >= 0 {
                assert(out[i] == r[bi] && out[j] == r[bj]);
            } else if bi < 0 {
                assert(out[j] == r[bj]);
                assert(r[p].1 <= s[0].1);
            } else {
                assert(out[i] == r[bi]);
            }
        }
    }
}

/// The items ranked by key, largest first; equal keys keep their order, as a stable
/// sort by the key in reverse does.
pub fn rank_by_key<T>(v: Vec<(T, u64)>) -> (out: Vec<(T, u64)>)
    ensures
        out@ == rank_desc(v@),
{
    let mut out: Vec<(T, u64)> = Vec::new();
    let mut rest = v;
    let ghost orig = rest@;
    assert(orig.skip(orig.len() as int) =~= Seq::<(T, u64)>::empty());
    while rest.len() > 0
        invariant
            rest@ == orig.take(rest.len() as int),
            rest.len() <= orig.len(),
            out@ == rank_desc(orig.skip(rest.len() as int)),
        decreases rest.len(),
    {
        let ghost n = rest.len();
        let e = rest.pop().unwrap();
        assert(orig.skip(n - 1).drop_first() =~= orig.skip(n as int));
        assert(orig.skip(n - 1)[0] == e);
        assert(rest@ =~= orig.take(n - 1));
        let mut p: usize = 0;
        while p < out.len() && out[p].1 > e.1
            invariant
                p <= out.len(),
                forall|k: int| 0 <= k < p ==> #[trigger] out@[k].1 > e.1,
            decreases out.len() - p,
        {
            p += 1;
        }
        proof {
            lemma_lead_above(out@, e.1, p as int);
        }
        out.insert(p, e);
    }
    assert(orig.skip(0) =~= orig);
    out
}

} // verus!
