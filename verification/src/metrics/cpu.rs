//! Sampling of /proc/stat, with the formula of the plasmoid:
//! active = user+nice+system+irq+softirq, total = active+idle+iowait.

use vstd::prelude::*;

use crate::text::{
    chars_of, lines, lines_of, num_or_zero, parse_u64, starts_with, views, words, words_of,
};

verus! {

broadcast use vstd::string::group_string_axioms;

#[derive(Clone, Copy, Default, PartialEq, Eq, Debug, Structural)]
pub struct CpuTicks {
    pub total: u64,
    pub active: u64,
    /// user + nice.
    pub user: u64,
    pub system: u64,
}

/// user + nice + system + irq + softirq of the words of a `cpu` line.
pub open spec fn row_active(w: Seq<Seq<char>>) -> int {
    num_or_zero(w[1]) + num_or_zero(w[2]) + num_or_zero(w[3]) + num_or_zero(w[6])
        + num_or_zero(w[7])
}

/// active + idle + iowait.
pub open spec fn row_total(w: Seq<Seq<char>>) -> int {
    row_active(w) + num_or_zero(w[4]) + num_or_zero(w[5])
}

/// The words of the leading lines that start with `cpu` and have at least seven fields
/// after their name; the first line that does not start with `cpu` ends them.
pub open spec fn cpu_rows(ls: Seq<Seq<char>>) -> Seq<Seq<Seq<char>>>
    decreases ls.len(),
{
    if ls.len() == 0 || !"cpu"@.is_prefix_of(ls[0]) {
        seq![]
    } else if words(ls[0]).len() >= 8 {
        seq![words(ls[0])] + cpu_rows(ls.drop_first())
    } else {
        cpu_rows(ls.drop_first())
    }
}

/// Whether every total of `raw` fits in a `u64`.
pub open spec fn stat_fits(raw: Seq<char>) -> bool {
    let rows = cpu_rows(lines(raw));
    forall|i: int| 0 <= i < rows.len() ==> row_total(#[trigger] rows[i]) <= u64::MAX
}

pub open spec fn ticks_of(w: Seq<Seq<char>>) -> CpuTicks {
    CpuTicks {
        total: row_total(w) as u64,
        active: row_active(w) as u64,
        user: (num_or_zero(w[1]) + num_or_zero(w[2])) as u64,
        system: num_or_zero(w[3]) as u64,
    }
}

/// One entry per `cpu` row: the aggregate first, then the cores in file order.
pub open spec fn stat_ticks(raw: Seq<char>) -> Seq<CpuTicks> {
    cpu_rows(lines(raw)).map_values(|w: Seq<Seq<char>>| ticks_of(w))
}

/// `parse_stat`, or `None` where a total does not fit in a `u64`.
pub fn parse_stat_checked(raw: &str) -> (out: Option<Vec<CpuTicks>>)
    ensures
        out is Some <==> stat_fits(raw@),
        out matches Some(v) ==> v@ == stat_ticks(raw@),
{
    let chars = chars_of(raw);
    let ls = lines_of(&chars);
    let prefix = chars_of("cpu");
    let ghost all = views(ls@);
    let ghost mut rows: Seq<Seq<Seq<char>>> = seq![];
    let mut out: Vec<CpuTicks> = Vec::new();
    let mut i: usize = 0;
    assert(all.skip(0) =~= all);
    assert(rows + cpu_rows(all) =~= cpu_rows(all));
    while i < ls.len()
        invariant
            i <= ls.len(),
            all == views(ls@),
            all == lines(raw@),
            prefix@ == "cpu"@,
            cpu_rows(all) == rows + cpu_rows(all.skip(i as int)),
            out@ == rows.map_values(|w: Seq<Seq<char>>| ticks_of(w)),
            forall|j: int| 0 <= j < rows.len() ==> row_total(#[trigger] rows[j]) <= u64::MAX,
        decreases ls.len() - i,
    {
        let ghost rest = all.skip(i as int);
        assert(rest[0] == ls@[i as int]@);
        assert(rest.drop_first() =~= all.skip(i + 1));
        if !starts_with(&ls[i], &prefix) {
            assert(cpu_rows(rest) =~= Seq::<Seq<Seq<char>>>::empty());
            assert(rows =~= cpu_rows(all));
            return Some(out);
        }
        let w = words_of(&ls[i]);
        if w.len() >= 8 {
            let ghost ws = views(w@);
            let mut vals: Vec<u64> = Vec::new();
            let mut j: usize = 1;
            while j < 8
                invariant
                    1 <= j <= 8,
                    w.len() >= 8,
                    vals.len() == j - 1,
                    forall|k: int| 0 <= k < j - 1 ==> #[trigger] vals@[k] == num_or_zero(views(w@)[k + 1]),
                decreases 8 - j,
            {
                let v = match parse_u64(&w[j]) {
                    Some(v) => v,
                    None => 0,
                };
                assert(views(w@)[j as int] == w@[j as int]@);
                vals.push(v);
                j += 1;
            }
            assert(vals@[0] == num_or_zero(ws[1]));
            assert(vals@[1] == num_or_zero(ws[2]));
            assert(vals@[2] == num_or_zero(ws[3]));
            assert(vals@[3] == num_or_zero(ws[4]));
            assert(vals@[4] == num_or_zero(ws[5]));
            assert(vals@[5] == num_or_zero(ws[6]));
            assert(vals@[6] == num_or_zero(ws[7]));
            let a = vals[0].checked_add(vals[1]);
            let a = match a { Some(x) => x.checked_add(vals[2]), None => None };
            let a = match a { Some(x) => x.checked_add(vals[5]), None => None };
            let a = match a { Some(x) => x.checked_add(vals[6]), None => None };
            let t = match a { Some(x) => x.checked_add(vals[3]), None => None };
            let t = match t { Some(x) => x.checked_add(vals[4]), None => None };
            proof {
                rows = rows.push(ws);
            }
            assert(cpu_rows(rest) == seq![ws] + cpu_rows(rest.drop_first()));
            match (a, t) {
                (Some(active), Some(total)) => {
                    let ghost before = out@;
                    out.push(CpuTicks { total, active, user: vals[0] + vals[1], system: vals[2] });
                    assert(out@ =~= rows.map_values(|w: Seq<Seq<char>>| ticks_of(w)));
                },
                _ => {
                    assert(row_total(ws) > u64::MAX);
                    assert(cpu_rows(all) == rows + cpu_rows(all.skip(i + 1)));
                    assert(cpu_rows(all)[rows.len() - 1] == ws);
                    return None;
                },
            }
        } else {
            assert(cpu_rows(rest) == cpu_rows(rest.drop_first()));
        }
        proof {
            assert((rows + cpu_rows(all.skip(i + 1))) =~= cpu_rows(all));
        }
        i += 1;
    }
    assert(cpu_rows(all.skip(i as int)) =~= Seq::<Seq<Seq<char>>>::empty());
    assert(rows =~= cpu_rows(all));
    Some(out)
}

/// Index 0 is the aggregate "cpu" line; the rest are the cores, in file order.
pub fn parse_stat(raw: &str) -> (out: Vec<CpuTicks>)
    requires
        stat_fits(raw@),
    ensures
        out@ == stat_ticks(raw@),
{
    match parse_stat_checked(raw) {
        Some(v) => v,
        None => Vec::new(),
    }
}


/// What moved between two samples of entry `i`: (active ticks, total ticks), when there
/// is a previous sample and the total advanced. A first sample, or a counter that was
/// reset or did not move, has none: the plasmoid shows 0 for it.
pub open spec fn tick_delta(prev: Seq<CpuTicks>, now: Seq<CpuTicks>, i: int) -> Option<(int, int)> {
    if i < prev.len() && now[i].total > prev[i].total {
        Some(
            (
                if now[i].active > prev[i].active {
                    now[i].active - prev[i].active
                } else {
                    0
                },
                now[i].total - prev[i].total,
            ),
        )
    } else {
        None
    }
}

/// The deltas of each entry of `now` against the previous sample; the usage of entry
/// `i` is `active / total` of its delta.
pub fn tick_deltas(prev: &Vec<CpuTicks>, now: &Vec<CpuTicks>) -> (out: Vec<Option<(u64, u64)>>)
    ensures
        out.len() == now.len(),
        forall|i: int|
            0 <= i < now.len() ==> match #[trigger] out@[i] {
                Some((a, t)) => tick_delta(prev@, now@, i) == Some((a as int, t as int)),
                None => tick_delta(prev@, now@, i) is None,
            },
{
    let mut out: Vec<Option<(u64, u64)>> = Vec::new();
    let mut i: usize = 0;
    while i < now.len()
        invariant
            i <= now.len(),
            out.len() == i,
            forall|j: int|
                0 <= j < i ==> match #[trigger] out@[j] {
                    Some((a, t)) => tick_delta(prev@, now@, j) == Some((a as int, t as int)),
                    None => tick_delta(prev@, now@, j) is None,
                },
        decreases now.len() - i,
    {
        let d = if i < prev.len() && now[i].total > prev[i].total {
            Some((now[i].active.saturating_sub(prev[i].active), now[i].total - prev[i].total))
        } else {
            None
        };
        out.push(d);
        i += 1;
    }
    out
}


/// `a - b`, or 0 when `b` is larger: a counter that went back counts as still.
pub open spec fn sat_sub(a: int, b: int) -> int {
    if a > b {
        a - b
    } else {
        0
    }
}

/// What the aggregate (entry 0) spent in user and in kernel mode since the previous
/// sample, with the total ticks that passed: (user, system, total), when there is a
/// previous sample and the total advanced. The user and system shares of the CPU panel
/// are these over the total.
pub open spec fn split_delta(prev: Seq<CpuTicks>, now: Seq<CpuTicks>) -> Option<(int, int, int)> {
    if prev.len() > 0 && now.len() > 0 && now[0].total > prev[0].total {
        Some(
            (
                sat_sub(now[0].user as int, prev[0].user as int),
                sat_sub(now[0].system as int, prev[0].system as int),
                now[0].total - prev[0].total,
            ),
        )
    } else {
        None
    }
}

pub fn aggregate_split(prev: &Vec<CpuTicks>, now: &Vec<CpuTicks>) -> (out: Option<(u64, u64, u64)>)
    ensures
        match out {
            Some((u, s, t)) => split_delta(prev@, now@) == Some((u as int, s as int, t as int)),
            None => split_delta(prev@, now@) is None,
        },
{
    if prev.len() > 0 && now.len() > 0 && now[0].total > prev[0].total {
        Some(
            (
                now[0].user.saturating_sub(prev[0].user),
                now[0].system.saturating_sub(prev[0].system),
                now[0].total - prev[0].total,
            ),
        )
    } else {
        None
    }
}

/// A sample compared with itself has no delta: a counter that does not advance gives 0.
pub proof fn lemma_still_counters_have_no_delta(ticks: Seq<CpuTicks>)
    ensures
        forall|i: int| 0 <= i < ticks.len() ==> #[trigger] tick_delta(ticks, ticks, i) is None,
        split_delta(ticks, ticks) is None,
{
}

/// The first sample, with nothing before it, has no delta either: it only sets the base.
pub proof fn lemma_first_sample_has_no_delta(now: Seq<CpuTicks>)
    ensures
        forall|i: int| 0 <= i < now.len() ==> #[trigger] tick_delta(seq![], now, i) is None,
        split_delta(seq![], now) is None,
{
}

} // verus!
