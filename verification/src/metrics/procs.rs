//! The top-process lists: the lines of /proc/N/stat they read, and which processes lead
//! by CPU time since the previous sample and by resident memory.

use vstd::prelude::*;

use std::collections::HashMap;

use crate::order::{rank_by_key, rank_desc};
use crate::text::{
    chars_of, copy_range, find_from, find_len, last_index, parse_u32, parse_u64, parse_unsigned,
    rfind_of, string_of, trim, trimmed, views, words, words_of,
};

verus! {

broadcast use vstd::string::group_string_axioms;

/// Five per list, like `count == 5` and `head -5` in the plasmoid's commands.
pub const TOP: usize = 5;

#[derive(Clone, Debug, PartialEq)]
pub struct ProcStat {
    pub pid: u32,
    pub name: String,
    /// utime + stime, in jiffies.
    pub ticks: u64,
    /// In pages.
    pub rss_pages: u64,
}

/// The head of a stat line: the pid, the name and the words after the name. The name
/// runs from the first `(` to the **last** `)`: it may hold spaces and parentheses.
pub open spec fn pid_stat_head(s: Seq<char>) -> Option<(int, Seq<char>, Seq<Seq<char>>)> {
    let open = find_len(s, '(');
    let close = last_index(s, ')');
    if open >= s.len() || close < 0 {
        None
    } else {
        match parse_unsigned(trim(s.take(open as int)), 10, u32::MAX as int) {
            None => None,
            Some(pid) => if open + 1 > close {
                None
            } else {
                Some((pid, s.subrange(open + 1 as int, close), words(s.skip(close + 1))))
            },
        }
    }
}

/// Word `i` after the name as a number; `fields[0]` is field 3 (state), so utime is
/// `field(11)`, stime `field(12)` and rss `field(21)`.
pub open spec fn stat_field(fields: Seq<Seq<char>>, i: int) -> Option<int> {
    if i < fields.len() {
        parse_unsigned(fields[i], 10, u64::MAX as int)
    } else {
        None
    }
}

/// The parts of a stat line: pid, name, utime, stime and rss, when they are all there.
pub open spec fn pid_stat_parts(s: Seq<char>) -> Option<(int, Seq<char>, int, int, int)> {
    match pid_stat_head(s) {
        Some((pid, name, fields)) => match (
            stat_field(fields, 11),
            stat_field(fields, 12),
            stat_field(fields, 21),
        ) {
            (Some(utime), Some(stime), Some(rss)) => Some((pid, name, utime, stime, rss)),
            _ => None,
        },
        None => None,
    }
}

/// Whether utime + stime fits in a `u64` wherever the head and both are there.
pub open spec fn pid_stat_fits(s: Seq<char>) -> bool {
    match pid_stat_head(s) {
        Some((_, _, fields)) => match (stat_field(fields, 11), stat_field(fields, 12)) {
            (Some(utime), Some(stime)) => utime + stime <= u64::MAX,
            _ => true,
        },
        None => true,
    }
}

/// The field `i` of `fields`, as `fields.get(i).and_then(|v| v.parse().ok())` reads it.
fn field_u64(fields: &Vec<Vec<char>>, i: usize) -> (out: Option<u64>)
    ensures
        match out {
            Some(v) => stat_field(views(fields@), i as int) == Some(v as int),
            None => stat_field(views(fields@), i as int) is None,
        },
{
    if i < fields.len() {
        assert(views(fields@)[i as int] == fields@[i as int]@);
        parse_u64(&fields[i])
    } else {
        None
    }
}

/// The head of the stat line and its three numbers.
fn split_pid_stat(raw: &str) -> (out: Option<(u32, Vec<char>, Option<u64>, Option<u64>, Option<u64>)>)
    ensures
        match out {
            Some((pid, name, utime, stime, rss)) => match pid_stat_head(raw@) {
                Some((p, n, fields)) => {
                    &&& p == pid as int
                    &&& n == name@
                    &&& stat_field(fields, 11) == match utime {
                        Some(v) => Some(v as int),
                        None => None::<int>,
                    }
                    &&& stat_field(fields, 12) == match stime {
                        Some(v) => Some(v as int),
                        None => None::<int>,
                    }
                    &&& stat_field(fields, 21) == match rss {
                        Some(v) => Some(v as int),
                        None => None::<int>,
                    }
                },
                None => false,
            },
            None => pid_stat_head(raw@) is None,
        },
{
    let s = chars_of(raw);
    let open = find_from(&s, 0, '(');
    assert(s@.skip(0) =~= s@);
    if open >= s.len() {
        return None;
    }
    let close = match rfind_of(&s, ')') {
        Some(c) => c,
        None => return None,
    };
    let head = trimmed(&copy_range(&s, 0, open));
    assert(s@.subrange(0, open as int) =~= s@.take(open as int));
    let pid = match parse_u32(&head) {
        Some(p) => p,
        None => return None,
    };
    if open + 1 > close {
        return None;
    }
    let name = copy_range(&s, open + 1, close);
    let tail = copy_range(&s, close + 1, s.len());
    assert(tail@ =~= s@.skip(close + 1));
    let fields = words_of(&tail);
    Some((pid, name, field_u64(&fields, 11), field_u64(&fields, 12), field_u64(&fields, 21)))
}

/// A line of /proc/N/stat, or `None` where a field is missing or malformed.
pub fn parse_pid_stat(raw: &str) -> (out: Option<ProcStat>)
    requires
        pid_stat_fits(raw@),
    ensures
        match out {
            Some(p) => match pid_stat_parts(raw@) {
                Some((pid, name, utime, stime, rss)) => p.pid == pid && p.name@ == name
                    && p.ticks == utime + stime && p.rss_pages == rss,
                None => false,
            },
            None => pid_stat_parts(raw@) is None,
        },
{
    match split_pid_stat(raw) {
        Some((pid, name, Some(utime), Some(stime), Some(rss))) => Some(
            ProcStat { pid, name: string_of(&name), ticks: utime + stime, rss_pages: rss },
        ),
        _ => None,
    }
}

/// `parse_pid_stat`, or `None` where utime + stime does not fit in a `u64`.
pub fn parse_pid_stat_checked(raw: &str) -> (out: Option<Option<ProcStat>>)
    ensures
        out is Some <==> pid_stat_fits(raw@),
        out matches Some(r) ==> match r {
            Some(p) => match pid_stat_parts(raw@) {
                Some((pid, name, utime, stime, rss)) => p.pid == pid && p.name@ == name
                    && p.ticks == utime + stime && p.rss_pages == rss,
                None => false,
            },
            None => pid_stat_parts(raw@) is None,
        },
{
    if let Some((_, _, Some(utime), Some(stime), _)) = split_pid_stat(raw) {
        if utime.checked_add(stime).is_none() {
            return None;
        }
    }
    Some(parse_pid_stat(raw))
}


/// The first `TOP` items of `s` ranked by key, largest first.
pub open spec fn top_of<T>(s: Seq<(T, u64)>) -> Seq<(T, u64)> {
    let r = rank_desc(s);
    if r.len() > TOP {
        r.take(TOP as int)
    } else {
        r
    }
}

/// A top list holds the `TOP` largest candidates, largest first: as many as there are
/// candidates, up to `TOP`; each taken from the candidates; and every candidate left out
/// has a key no larger than any key in the list.
pub proof fn lemma_top_is_largest<T>(s: Seq<(T, u64)>)
    ensures
        top_of(s).len() == if s.len() > TOP {
            TOP as nat
        } else {
            s.len()
        },
        forall|i: int, j: int|
            0 <= i < j < top_of(s).len() ==> top_of(s)[i].1 >= top_of(s)[j].1,
        forall|x: (T, u64)| top_of(s).to_multiset().count(x) <= s.to_multiset().count(x),
        forall|x: (T, u64), i: int|
            0 <= i < top_of(s).len() && s.to_multiset().count(x) > top_of(s).to_multiset().count(x)
                ==> top_of(s)[i].1 >= x.1,
{
    broadcast use vstd::seq_lib::group_to_multiset_ensures;

    let r = rank_desc(s);
    crate::order::lemma_rank_desc(s);
    assert(r.len() == r.to_multiset().len());
    assert(s.len() == s.to_multiset().len());
    let n = if r.len() > TOP {
        TOP as int
    } else {
        r.len() as int
    };
    let t = r.take(n);
    let u = r.skip(n);
    assert(r =~= t + u);
    vstd::seq_lib::lemma_multiset_commutative(t, u);
    assert(top_of(s) == t);
    assert forall|x: (T, u64), i: int|
        0 <= i < t.len() && s.to_multiset().count(x) > t.to_multiset().count(x) implies t[i].1
        >= x.1 by {
        assert(u.to_multiset().count(x) > 0);
        assert(u.contains(x));
        let j = choose|j: int| 0 <= j < u.len() && u[j] == x;
        assert(u[j] == r[n + j]);
        assert(t[i] == r[i]);
    }
}

/// The memory candidates are exactly the processes with resident pages, each with its
/// index in the list and its pages.
pub proof fn lemma_mem_keys(now: Seq<ProcStat>, n: nat)
    requires
        n <= now.len() <= usize::MAX,
    ensures
        forall|i: int|
            0 <= i < n && now[i].rss_pages > 0 ==> mem_keys(now, n).contains(
                (i as usize, now[i].rss_pages),
            ),
        forall|k: int|
            0 <= k < mem_keys(now, n).len() ==> ({
                let (i, pages) = #[trigger] mem_keys(now, n)[k];
                &&& i < n
                &&& pages == now[i as int].rss_pages
                &&& pages > 0
            }),
    decreases n,
{
    if n > 0 {
        lemma_mem_keys(now, (n - 1) as nat);
        let rest = mem_keys(now, (n - 1) as nat);
        assert forall|k: int| 0 <= k < mem_keys(now, n).len() implies ({
            let (i, pages) = #[trigger] mem_keys(now, n)[k];
            &&& i < n
            &&& pages == now[i as int].rss_pages
            &&& pages > 0
        }) by {
            if k < rest.len() {
                assert(mem_keys(now, n)[k] == rest[k]);
            }
        }
        assert forall|i: int|
            0 <= i < n && now[i].rss_pages > 0 implies mem_keys(now, n).contains(
                (i as usize, now[i].rss_pages),
            ) by {
            if i < n - 1 {
                let k = choose|k: int| 0 <= k < rest.len() && rest[k] == (i as usize, now[i].rss_pages);
                if now[n - 1].rss_pages > 0 {
                    assert(mem_keys(now, n)[k] == rest[k]);
                } else {
                    assert(mem_keys(now, n)[k] == rest[k]);
                }
            } else {
                assert(mem_keys(now, n)[rest.len() as int] == (i as usize, now[i].rss_pages));
            }
        }
    }
}

/// The CPU candidates are exactly the processes that have a previous sample, each with
/// its index in the list and the ticks it used since then (0 where its counter went
/// back).
pub proof fn lemma_cpu_keys(prev: Map<u32, u64>, now: Seq<ProcStat>, n: nat)
    requires
        n <= now.len() <= usize::MAX,
    ensures
        forall|i: int|
            0 <= i < n && prev.contains_key(now[i].pid) ==> cpu_keys(prev, now, n).contains(
                (i as usize, ticks_since(now[i].ticks, prev[now[i].pid])),
            ),
        forall|k: int|
            0 <= k < cpu_keys(prev, now, n).len() ==> ({
                let (i, t) = #[trigger] cpu_keys(prev, now, n)[k];
                &&& i < n
                &&& prev.contains_key(now[i as int].pid)
                &&& t == ticks_since(now[i as int].ticks, prev[now[i as int].pid])
            }),
    decreases n,
{
    if n > 0 {
        lemma_cpu_keys(prev, now, (n - 1) as nat);
        let rest = cpu_keys(prev, now, (n - 1) as nat);
        assert forall|k: int| 0 <= k < cpu_keys(prev, now, n).len() implies ({
            let (i, t) = #[trigger] cpu_keys(prev, now, n)[k];
            &&& i < n
            &&& prev.contains_key(now[i as int].pid)
            &&& t == ticks_since(now[i as int].ticks, prev[now[i as int].pid])
        }) by {
            if k < rest.len() {
                assert(cpu_keys(prev, now, n)[k] == rest[k]);
            }
        }
        assert forall|i: int|
            0 <= i < n && prev.contains_key(now[i].pid) implies cpu_keys(prev, now, n).contains(
                (i as usize, ticks_since(now[i].ticks, prev[now[i].pid])),
            ) by {
            if i < n - 1 {
                let k = choose|k: int|
                    0 <= k < rest.len() && rest[k] == (i as usize, ticks_since(now[i].ticks, prev[now[i].pid]));
                assert(cpu_keys(prev, now, n)[k] == rest[k]);
            } else {
                assert(cpu_keys(prev, now, n)[rest.len() as int] == (
                    i as usize,
                    ticks_since(now[i].ticks, prev[now[i].pid]),
                ));
            }
        }
    }
}

/// `a - b`, or 0 when `b` is larger.
pub open spec fn ticks_since(a: u64, b: u64) -> u64 {
    if a > b {
        (a - b) as u64
    } else {
        0
    }
}

/// (index in `now`, ticks since the previous sample) of the first `n` processes of `now`
/// that have a previous sample in `prev`: the ones that are not newborn.
pub open spec fn cpu_keys(prev: Map<u32, u64>, now: Seq<ProcStat>, n: nat) -> Seq<(usize, u64)>
    decreases n,
{
    if n == 0 {
        seq![]
    } else {
        let rest = cpu_keys(prev, now, (n - 1) as nat);
        let p = now[n - 1];
        if prev.contains_key(p.pid) {
            rest.push(((n - 1) as usize, ticks_since(p.ticks, prev[p.pid])))
        } else {
            rest
        }
    }
}

/// (index in `now`, resident pages) of the first `n` processes of `now` that have any.
pub open spec fn mem_keys(now: Seq<ProcStat>, n: nat) -> Seq<(usize, u64)>
    decreases n,
{
    if n == 0 {
        seq![]
    } else {
        let rest = mem_keys(now, (n - 1) as nat);
        if now[n - 1].rss_pages > 0 {
            rest.push(((n - 1) as usize, now[n - 1].rss_pages))
        } else {
            rest
        }
    }
}

/// The names of the processes that `keys` points at, with their keys.
pub open spec fn named(now: Seq<ProcStat>, keys: Seq<(usize, u64)>) -> Seq<(Seq<char>, u64)> {
    keys.map_values(|k: (usize, u64)| (now[k.0 as int].name@, k.1))
}

pub open spec fn name_views(v: Seq<(String, u64)>) -> Seq<(Seq<char>, u64)> {
    v.map_values(|e: (String, u64)| (e.0@, e.1))
}

fn names_of(now: &[ProcStat], keys: Vec<(usize, u64)>) -> (out: Vec<(String, u64)>)
    requires
        forall|i: int| 0 <= i < keys.len() ==> (#[trigger] keys@[i]).0 < now.len(),
    ensures
        name_views(out@) == named(now@, keys@),
{
    let mut out: Vec<(String, u64)> = Vec::new();
    let mut i: usize = 0;
    while i < keys.len()
        invariant
            i <= keys.len(),
            forall|j: int| 0 <= j < keys.len() ==> (#[trigger] keys@[j]).0 < now.len(),
            name_views(out@) == named(now@, keys@.take(i as int)),
        decreases keys.len() - i,
    {
        let (k, d) = keys[i];
        let ghost before = out@;
        let name = now[k].name.clone();
        assert(name@ == now@[k as int].name@);
        out.push((name, d));
        assert(keys@.take(i + 1) =~= keys@.take(i as int).push(keys@[i as int]));
        assert(name_views(out@) =~= name_views(before).push((now@[k as int].name@, d)));
        assert(name_views(out@) =~= named(now@, keys@.take(i + 1)));
        i += 1;
    }
    assert(keys@.take(i as int) =~= keys@);
    out
}

fn top_keys(keys: Vec<(usize, u64)>, bound: usize) -> (out: Vec<(usize, u64)>)
    requires
        forall|i: int| 0 <= i < keys.len() ==> (#[trigger] keys@[i]).0 < bound,
    ensures
        out@ == top_of(keys@),
        forall|i: int| 0 <= i < out.len() ==> (#[trigger] out@[i]).0 < bound,
{
    let ghost orig = keys@;
    let mut ranked = rank_by_key(keys);
    proof {
        broadcast use vstd::seq_lib::group_to_multiset_ensures;

        crate::order::lemma_rank_desc(orig);
        assert forall|i: int| 0 <= i < ranked.len() implies (#[trigger] ranked@[i]).0 < bound by {
            assert(ranked@.contains(ranked@[i]));
            assert(orig.to_multiset().count(ranked@[i]) > 0);
            let j = choose|j: int| 0 <= j < orig.len() && orig[j] == ranked@[i];
            assert(orig[j].0 < bound);
        }
    }
    ranked.truncate(TOP);
    ranked
}

/// The processes that used the most CPU since the previous sample, busiest first, with
/// the ticks they used: processes without a previous sample wait for the next one. No
/// list without ticks elapsed or without cores. The share of a process is its ticks
/// over `total_delta / cores`, the time of one core.
pub fn top_cpu_ticks(prev: &HashMap<u32, u64>, now: &[ProcStat], total_delta: u64, cores: usize) -> (out: Vec<(String, u64)>)
    ensures
        total_delta == 0 || cores == 0 ==> out@.len() == 0,
        total_delta != 0 && cores != 0 ==> name_views(out@) == named(
            now@,
            top_of(cpu_keys(prev@, now@, now@.len())),
        ),
{
    broadcast use vstd::std_specs::hash::group_hash_axioms;

    if total_delta == 0 || cores == 0 {
        return Vec::new();
    }
    let mut keys: Vec<(usize, u64)> = Vec::new();
    let mut i: usize = 0;
    while i < now.len()
        invariant
            i <= now.len(),
            keys@ == cpu_keys(prev@, now@, i as nat),
            forall|j: int| 0 <= j < keys.len() ==> (#[trigger] keys@[j]).0 < i,
        decreases now.len() - i,
    {
        let p = &now[i];
        match prev.get(&p.pid) {
            Some(before) => {
                keys.push((i, p.ticks.saturating_sub(*before)));
            },
            None => {},
        }
        i += 1;
    }
    let top = top_keys(keys, now.len());
    names_of(now, top)
}

/// The processes with the most resident memory, largest first, with their resident
/// pages; processes with none are left out.
pub fn top_mem_pages(now: &[ProcStat]) -> (out: Vec<(String, u64)>)
    ensures
        name_views(out@) == named(now@, top_of(mem_keys(now@, now@.len()))),
{
    let mut keys: Vec<(usize, u64)> = Vec::new();
    let mut i: usize = 0;
    while i < now.len()
        invariant
            i <= now.len(),
            keys@ == mem_keys(now@, i as nat),
            forall|j: int| 0 <= j < keys.len() ==> (#[trigger] keys@[j]).0 < i,
        decreases now.len() - i,
    {
        if now[i].rss_pages > 0 {
            keys.push((i, now[i].rss_pages));
        }
        i += 1;
    }
    let top = top_keys(keys, now.len());
    names_of(now, top)
}

} // verus!
