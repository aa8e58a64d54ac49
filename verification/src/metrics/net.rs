//! Network rate from /proc/net/dev: every interface but `lo`, like the plasmoid's
//! `parseNetDev` (tailscale0, docker0 and the like included).

use vstd::prelude::*;

use crate::text::{
    chars_of, lines, lines_of, num_or_zero, split_once, split_once_of, trim, trimmed,
    u64_or_zero, views, words, words_of,
};

verus! {

broadcast use vstd::string::group_string_axioms;

/// The counters of a line of /proc/net/dev: the words after `iface:`, unless the
/// interface is `lo` or fewer than nine fields follow.
pub open spec fn net_row(line: Seq<char>) -> Option<Seq<Seq<char>>> {
    match split_once(line, ':') {
        Some((iface, rest)) => if trim(iface) != "lo"@ && words(rest).len() >= 9 {
            Some(words(rest))
        } else {
            None
        },
        None => None,
    }
}

/// Sum of field `j` of the counters of the lines.
pub open spec fn net_sum(ls: Seq<Seq<char>>, j: int) -> int
    decreases ls.len(),
{
    if ls.len() == 0 {
        0
    } else {
        net_sum(ls.drop_last(), j) + match net_row(ls.last()) {
            Some(w) => num_or_zero(w[j]),
            None => 0,
        }
    }
}

/// Bytes received (field 1) and sent (field 9), summed over the interfaces.
pub open spec fn net_totals(raw: Seq<char>) -> (int, int) {
    (net_sum(lines(raw), 0), net_sum(lines(raw), 8))
}

pub open spec fn net_fits(raw: Seq<char>) -> bool {
    net_totals(raw).0 <= u64::MAX && net_totals(raw).1 <= u64::MAX
}

proof fn lemma_net_sum_prefix(ls: Seq<Seq<char>>, j: int, k: int)
    requires
        0 <= k <= ls.len(),
    ensures
        0 <= net_sum(ls.take(k), j) <= net_sum(ls, j),
    decreases ls.len() - k,
{
    if k < ls.len() {
        lemma_net_sum_prefix(ls.drop_last(), j, k);
        assert(ls.drop_last().take(k) =~= ls.take(k));
        if let Some(w) = net_row(ls.last()) {
            crate::text::lemma_parse_nonneg(w[j], 10, 0);
        }
    } else {
        assert(ls.take(k) =~= ls);
        lemma_net_sum_nonneg(ls, j);
    }
}

proof fn lemma_net_sum_nonneg(ls: Seq<Seq<char>>, j: int)
    ensures
        net_sum(ls, j) >= 0,
    decreases ls.len(),
{
    if ls.len() > 0 {
        lemma_net_sum_nonneg(ls.drop_last(), j);
        if let Some(w) = net_row(ls.last()) {
            crate::text::lemma_parse_nonneg(w[j], 10, 0);
        }
    }
}

/// `parse_net_dev`, or `None` where a sum does not fit in a `u64`.
pub fn parse_net_dev_checked(raw: &str) -> (out: Option<(u64, u64)>)
    ensures
        out is Some <==> net_fits(raw@),
        out matches Some(t) ==> t.0 == net_totals(raw@).0 && t.1 == net_totals(raw@).1,
{
    let chars = chars_of(raw);
    let ls = lines_of(&chars);
    let lo = chars_of("lo");
    let ghost all = views(ls@);
    let mut rx: u64 = 0;
    let mut tx: u64 = 0;
    let mut i: usize = 0;
    assert(all.take(0) =~= Seq::<Seq<char>>::empty());
    while i < ls.len()
        invariant
            i <= ls.len(),
            all == views(ls@),
            all == lines(raw@),
            lo@ == "lo"@,
            rx == net_sum(all.take(i as int), 0),
            tx == net_sum(all.take(i as int), 8),
        decreases ls.len() - i,
    {
        let ghost pre = all.take(i as int);
        let ghost next = all.take(i + 1);
        assert(next.drop_last() =~= pre);
        assert(next.last() == ls@[i as int]@);
        if let Some((iface, rest)) = split_once_of(&ls[i], ':') {
            let name = trimmed(&iface);
            if !crate::config::eq_chars(&name, &lo) {
                let f = words_of(&rest);
                if f.len() >= 9 {
                    assert(views(f@)[0] == f@[0]@);
                    assert(views(f@)[8] == f@[8]@);
                    let r = rx.checked_add(u64_or_zero(&f[0]));
                    let t = tx.checked_add(u64_or_zero(&f[8]));
                    match (r, t) {
                        (Some(r), Some(t)) => {
                            rx = r;
                            tx = t;
                        },
                        _ => {
                            proof {
                                lemma_net_sum_prefix(all, 0, i + 1);
                                lemma_net_sum_prefix(all, 8, i + 1);
                            }
                            return None;
                        },
                    }
                }
            }
        }
        i += 1;
    }
    assert(all.take(i as int) =~= all);
    Some((rx, tx))
}

/// (bytes received, bytes sent) so far, without `lo`.
pub fn parse_net_dev(raw: &str) -> (out: (u64, u64))
    requires
        net_fits(raw@),
    ensures
        out.0 == net_totals(raw@).0,
        out.1 == net_totals(raw@).1,
{
    match parse_net_dev_checked(raw) {
        Some(t) => t,
        None => (0, 0),
    }
}

/// Every interface but `lo` counts: a line `iface: counters` whose trimmed name is not
/// `lo` and that has at least nine counters adds its first counter to the bytes received
/// and its ninth to the bytes sent; a line of `lo` adds nothing.
pub proof fn lemma_every_interface_but_lo_counts(ls: Seq<Seq<char>>, line: Seq<char>)
    ensures
        ({
            let l2 = ls.push(line);
            match split_once(line, ':') {
                Some((iface, rest)) => if trim(iface) != "lo"@ && words(rest).len() >= 9 {
                    &&& net_sum(l2, 0) == net_sum(ls, 0) + num_or_zero(words(rest)[0])
                    &&& net_sum(l2, 8) == net_sum(ls, 8) + num_or_zero(words(rest)[8])
                } else if trim(iface) == "lo"@ {
                    &&& net_sum(l2, 0) == net_sum(ls, 0)
                    &&& net_sum(l2, 8) == net_sum(ls, 8)
                } else {
                    true
                },
                None => net_sum(l2, 0) == net_sum(ls, 0) && net_sum(l2, 8) == net_sum(ls, 8),
            }
        }),
{
    let l2 = ls.push(line);
    assert(l2.drop_last() =~= ls);
    assert(l2.last() == line);
}

} // verus!
