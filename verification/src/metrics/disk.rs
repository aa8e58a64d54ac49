//! Disks: I/O from /proc/diskstats, the mount points of /proc/self/mounts, usage as
//! `df` computes it, and the transport of a block device.

use vstd::prelude::*;

use crate::text::{
    contains, contains_of, push_str, copy_range, starts_with, string_of, from_utf8_lossy, lemma_no_backslash_bytes, utf8_lossy, chars_of, lines, lines_of, num_or_zero, split_once, split_once_of, strip_prefix,
    strip_prefix_of, u64_or_zero, views, words, words_of,
};

use vstd::utf8::encode_utf8;

use crate::order::{chars_lt, partition_lt, sort_names, sort_partitions, sorted_by, string_views};

verus! {

broadcast use vstd::string::group_string_axioms;

/// One or more characters, all of them `a` to `z`.
pub open spec fn lower_word(s: Seq<char>) -> bool {
    s.len() > 0 && forall|i: int| 0 <= i < s.len() ==> 0x61 <= #[trigger] (s[i] as u32) <= 0x7a
}

/// One or more characters, all of them `0` to `9`.
pub open spec fn digit_word(s: Seq<char>) -> bool {
    s.len() > 0 && forall|i: int| 0 <= i < s.len() ==> 0x30 <= #[trigger] (s[i] as u32) <= 0x39
}

fn is_lower_word(s: &Vec<char>) -> (b: bool)
    ensures
        b == lower_word(s@),
{
    if s.len() == 0 {
        return false;
    }
    let mut i: usize = 0;
    while i < s.len()
        invariant
            i <= s.len(),
            forall|j: int| 0 <= j < i ==> 0x61 <= #[trigger] (s@[j] as u32) <= 0x7a,
        decreases s.len() - i,
    {
        let u = s[i] as u32;
        if u < 0x61 || u > 0x7a {
            return false;
        }
        i += 1;
    }
    true
}

fn is_digit_word(s: &Vec<char>) -> (b: bool)
    ensures
        b == digit_word(s@),
{
    if s.len() == 0 {
        return false;
    }
    let mut i: usize = 0;
    while i < s.len()
        invariant
            i <= s.len(),
            forall|j: int| 0 <= j < i ==> 0x30 <= #[trigger] (s@[j] as u32) <= 0x39,
        decreases s.len() - i,
    {
        let u = s[i] as u32;
        if u < 0x30 || u > 0x39 {
            return false;
        }
        i += 1;
    }
    true
}

/// The criterion of the plasmoid's `isWholeDiskDevice`:
/// `^(sd[a-z]+|vd[a-z]+|xvd[a-z]+|hd[a-z]+|nvme\d+n\d+|mmcblk\d+|md\d+)$`.
pub open spec fn whole_disk(name: Seq<char>) -> bool {
    if let Some(rest) = strip_prefix(name, "xvd"@) {
        lower_word(rest)
    } else if let Some(rest) = strip_prefix(name, "sd"@) {
        lower_word(rest)
    } else if let Some(rest) = strip_prefix(name, "vd"@) {
        lower_word(rest)
    } else if let Some(rest) = strip_prefix(name, "hd"@) {
        lower_word(rest)
    } else if let Some(rest) = strip_prefix(name, "nvme"@) {
        match split_once(rest, 'n') {
            Some((controller, ns)) => digit_word(controller) && digit_word(ns),
            None => false,
        }
    } else if let Some(rest) = strip_prefix(name, "mmcblk"@) {
        digit_word(rest)
    } else if let Some(rest) = strip_prefix(name, "md"@) {
        digit_word(rest)
    } else {
        false
    }
}

fn is_whole_disk_chars(name: &Vec<char>) -> (b: bool)
    ensures
        b == whole_disk(name@),
{
    if let Some(rest) = strip_prefix_of(name, &chars_of("xvd")) {
        return is_lower_word(&rest);
    }
    if let Some(rest) = strip_prefix_of(name, &chars_of("sd")) {
        return is_lower_word(&rest);
    }
    if let Some(rest) = strip_prefix_of(name, &chars_of("vd")) {
        return is_lower_word(&rest);
    }
    if let Some(rest) = strip_prefix_of(name, &chars_of("hd")) {
        return is_lower_word(&rest);
    }
    if let Some(rest) = strip_prefix_of(name, &chars_of("nvme")) {
        return match split_once_of(&rest, 'n') {
            Some((controller, ns)) => is_digit_word(&controller) && is_digit_word(&ns),
            None => false,
        };
    }
    if let Some(rest) = strip_prefix_of(name, &chars_of("mmcblk")) {
        return is_digit_word(&rest);
    }
    if let Some(rest) = strip_prefix_of(name, &chars_of("md")) {
        return is_digit_word(&rest);
    }
    false
}

/// Whether `name` is a whole disk rather than a partition or a virtual device.
pub fn is_whole_disk(name: &str) -> (b: bool)
    ensures
        b == whole_disk(name@),
{
    is_whole_disk_chars(&chars_of(name))
}


/// The words of the lines of whole disks with at least ten columns.
pub open spec fn disk_rows(ls: Seq<Seq<char>>) -> Seq<Seq<Seq<char>>>
    decreases ls.len(),
{
    if ls.len() == 0 {
        seq![]
    } else {
        let w = words(ls.last());
        if w.len() >= 10 && whole_disk(w[2]) {
            disk_rows(ls.drop_last()).push(w)
        } else {
            disk_rows(ls.drop_last())
        }
    }
}

/// Sum over `rows` of column `j`, a count of 512-byte sectors, in bytes.
pub open spec fn sector_bytes(rows: Seq<Seq<Seq<char>>>, j: int) -> int
    decreases rows.len(),
{
    if rows.len() == 0 {
        0
    } else {
        sector_bytes(rows.drop_last(), j) + num_or_zero(rows.last()[j]) * 512
    }
}

proof fn lemma_sector_bytes_prefix(rows: Seq<Seq<Seq<char>>>, j: int, k: int)
    requires
        0 <= k <= rows.len(),
    ensures
        0 <= sector_bytes(rows.take(k), j) <= sector_bytes(rows, j),
    decreases rows.len() - k,
{
    if k < rows.len() {
        lemma_sector_bytes_prefix(rows.drop_last(), j, k);
        assert(rows.drop_last().take(k) =~= rows.take(k));
        crate::text::lemma_parse_nonneg(rows.last()[j], 10, 0);
    } else {
        assert(rows.take(k) =~= rows);
        lemma_sector_bytes_nonneg(rows, j);
    }
}

proof fn lemma_sector_bytes_nonneg(rows: Seq<Seq<Seq<char>>>, j: int)
    ensures
        sector_bytes(rows, j) >= 0,
    decreases rows.len(),
{
    if rows.len() > 0 {
        lemma_sector_bytes_nonneg(rows.drop_last(), j);
        crate::text::lemma_parse_nonneg(rows.last()[j], 10, 0);
    }
}

/// Bytes read (column 6) and written (column 10) by the whole disks of `raw`.
pub open spec fn diskstats_totals(raw: Seq<char>) -> (int, int) {
    let rows = disk_rows(lines(raw));
    (sector_bytes(rows, 5), sector_bytes(rows, 9))
}

/// Whether both totals fit in a `u64`.
pub open spec fn diskstats_fit(raw: Seq<char>) -> bool {
    diskstats_totals(raw).0 <= u64::MAX && diskstats_totals(raw).1 <= u64::MAX
}

/// Adds `n` sectors, in bytes, to `acc`; `None` past `u64::MAX`.
fn add_sectors(acc: u64, n: u64) -> (out: Option<u64>)
    ensures
        match out {
            Some(v) => v == acc + n * 512,
            None => acc + n * 512 > u64::MAX,
        },
{
    match n.checked_mul(512) {
        Some(b) => acc.checked_add(b),
        None => None,
    }
}

/// `parse_diskstats`, or `None` where a total does not fit in a `u64`.
pub fn parse_diskstats_checked(raw: &str) -> (out: Option<(u64, u64)>)
    ensures
        out is Some <==> diskstats_fit(raw@),
        out matches Some(t) ==> t.0 == diskstats_totals(raw@).0 && t.1
            == diskstats_totals(raw@).1,
{
    let chars = chars_of(raw);
    let ls = lines_of(&chars);
    let ghost all = views(ls@);
    let ghost rows = disk_rows(all);
    let mut read: u64 = 0;
    let mut write: u64 = 0;
    let mut i: usize = 0;
    assert(all.take(0) =~= Seq::<Seq<char>>::empty());
    while i < ls.len()
        invariant
            i <= ls.len(),
            all == views(ls@),
            all == lines(raw@),
            rows == disk_rows(all),
            read == sector_bytes(disk_rows(all.take(i as int)), 5),
            write == sector_bytes(disk_rows(all.take(i as int)), 9),
        decreases ls.len() - i,
    {
        let ghost pre = all.take(i as int);
        let ghost next = all.take(i + 1);
        assert(next.drop_last() =~= pre);
        assert(next.last() == ls@[i as int]@);
        let f = words_of(&ls[i]);
        let ghost rows_pre = disk_rows(pre);
        if f.len() >= 10 && is_whole_disk_chars(&f[2]) {
            assert(views(f@)[2] == f@[2]@);
            assert(disk_rows(next) == rows_pre.push(views(f@)));
            assert(rows_pre.push(views(f@)).drop_last() =~= rows_pre);
            assert(views(f@)[5] == f@[5]@);
            assert(views(f@)[9] == f@[9]@);
            let r = add_sectors(read, u64_or_zero(&f[5]));
            let w = add_sectors(write, u64_or_zero(&f[9]));
            match (r, w) {
                (Some(r), Some(w)) => {
                    read = r;
                    write = w;
                    assert(read == sector_bytes(disk_rows(next), 5));
                    assert(write == sector_bytes(disk_rows(next), 9));
                },
                _ => {
                    proof {
                        lemma_disk_rows_prefix(all, i + 1);
                        lemma_sector_bytes_prefix(rows, 5, disk_rows(next).len() as int);
                        lemma_sector_bytes_prefix(rows, 9, disk_rows(next).len() as int);
                    }
                    return None;
                },
            }
        } else {
            assert(views(f@).len() < 10 || !whole_disk(views(f@)[2])) by {
                if views(f@).len() >= 10 {
                    assert(views(f@)[2] == f@[2]@);
                }
            }
            assert(disk_rows(next) == rows_pre);
        }
        i += 1;
    }
    assert(all.take(i as int) =~= all);
    Some((read, write))
}

proof fn lemma_disk_rows_prefix(ls: Seq<Seq<char>>, k: int)
    requires
        0 <= k <= ls.len(),
    ensures
        disk_rows(ls.take(k)) == disk_rows(ls).take(disk_rows(ls.take(k)).len() as int),
        disk_rows(ls.take(k)).len() <= disk_rows(ls).len(),
    decreases ls.len() - k,
{
    if k < ls.len() {
        lemma_disk_rows_prefix(ls.drop_last(), k);
        assert(ls.drop_last().take(k) =~= ls.take(k));
        let a = disk_rows(ls.drop_last());
        let b = disk_rows(ls.take(k));
        assert(disk_rows(ls).take(b.len() as int) =~= a.take(b.len() as int));
    } else {
        assert(ls.take(k) =~= ls);
        assert(disk_rows(ls).take(disk_rows(ls).len() as int) =~= disk_rows(ls));
    }
}

/// (bytes read, bytes written) by the whole disks, from columns 6 and 10 of
/// /proc/diskstats, which count 512-byte sectors.
pub fn parse_diskstats(raw: &str) -> (out: (u64, u64))
    requires
        diskstats_fit(raw@),
    ensures
        out.0 == diskstats_totals(raw@).0,
        out.1 == diskstats_totals(raw@).1,
{
    match parse_diskstats_checked(raw) {
        Some(t) => t,
        None => (0, 0),
    }
}


pub open spec fn is_octal(b: u8) -> bool {
    0x30 <= b <= 0x37
}

/// Whether a `\ooo` escape starts at `i`: a backslash followed by three octal digits
/// that are not the last bytes... (the escape is taken only when a byte follows the
/// backslash by at least three).
pub open spec fn escape_at(b: Seq<u8>, i: int) -> bool {
    b[i] == 0x5c && i + 3 < b.len() && is_octal(b[i + 1]) && is_octal(b[i + 2]) && is_octal(
        b[i + 3],
    )
}

/// The byte that the escape at `i` stands for, its value taken modulo 256.
pub open spec fn escaped_byte(b: Seq<u8>, i: int) -> u8 {
    (((b[i + 1] - 0x30) * 64 + (b[i + 2] - 0x30) * 8 + (b[i + 3] - 0x30)) % 256) as u8
}

/// `b` with each `\ooo` escape replaced by the byte it stands for.
pub open spec fn unescape_bytes(b: Seq<u8>) -> Seq<u8>
    decreases b.len(),
{
    if b.len() == 0 {
        seq![]
    } else if escape_at(b, 0) {
        seq![escaped_byte(b, 0)] + unescape_bytes(b.skip(4))
    } else {
        seq![b[0]] + unescape_bytes(b.skip(1))
    }
}

/// The text of a field of /proc/self/mounts once its escapes are undone: the text that
/// the bytes encode when they are valid UTF-8, else what `from_utf8_lossy` makes of
/// them.
pub open spec fn unescaped(s: Seq<char>) -> Seq<char> {
    let b = unescape_bytes(encode_utf8(s));
    if vstd::utf8::valid_utf8(b) {
        vstd::utf8::decode_utf8(b)
    } else {
        utf8_lossy(b)
    }
}

/// /proc/self/mounts escapes space, tab, newline and backslash as `\ooo`.
pub fn unescape_mount(s: &str) -> (out: String)
    ensures
        out@ == unescaped(s@),
        vstd::utf8::valid_utf8(unescape_bytes(encode_utf8(s@))) ==> out@ == vstd::utf8::decode_utf8(
            unescape_bytes(encode_utf8(s@)),
        ),
        !s@.contains('\\') ==> out@ == s@,
{
    proof {
        if !s@.contains('\\') {
            lemma_unescape_without_escapes(s@);
        }
    }
    let b = s.as_bytes();
    let ghost bs = b@;
    let mut out: Vec<u8> = Vec::new();
    let mut i: usize = 0;
    assert(bs.skip(0) =~= bs);
    assert(out@ + unescape_bytes(bs) =~= unescape_bytes(bs));
    while i < b.len()
        invariant
            i <= b.len(),
            b@ == bs,
            unescape_bytes(bs) == out@ + unescape_bytes(bs.skip(i as int)),
        decreases b.len() - i,
    {
        let ghost rest = bs.skip(i as int);
        let octal = b[i] == 0x5c && b.len() - i > 3 && 0x30 <= b[i + 1] && b[i + 1] <= 0x37
            && 0x30 <= b[i + 2] && b[i + 2] <= 0x37 && 0x30 <= b[i + 3] && b[i + 3] <= 0x37;
        assert(octal == escape_at(rest, 0));
        if octal {
            let v = (b[i + 1] - 0x30) as u32 * 64 + (b[i + 2] - 0x30) as u32 * 8 + (b[i + 3]
                - 0x30) as u32;
            let byte = (v % 256) as u8;
            assert(byte == escaped_byte(rest, 0));
            assert(rest.skip(4) =~= bs.skip(i + 4));
            out.push(byte);
            i += 4;
        } else {
            assert(rest.skip(1) =~= bs.skip(i + 1));
            out.push(b[i]);
            i += 1;
        }
    }
    assert(bs.skip(i as int) =~= Seq::<u8>::empty());
    assert(out@ =~= unescape_bytes(bs));
    from_utf8_lossy(out.as_slice())
}

proof fn lemma_unescape_plain(b: Seq<u8>)
    requires
        !b.contains(0x5cu8),
    ensures
        unescape_bytes(b) == b,
    decreases b.len(),
{
    if b.len() > 0 {
        assert(b[0] != 0x5c) by {
            if b[0] == 0x5c {
                assert(b.contains(b[0]));
            }
        }
        let r = b.skip(1);
        assert(!r.contains(0x5cu8)) by {
            if r.contains(0x5cu8) {
                let i = choose|i: int| 0 <= i < r.len() && r[i] == 0x5cu8;
                assert(b[i + 1] == 0x5c);
            }
        }
        lemma_unescape_plain(r);
        assert(seq![b[0]] + r =~= b);
    }
}

/// The bytes of a field without backslashes hold no escape.
proof fn lemma_unescape_without_escapes(s: Seq<char>)
    requires
        !s.contains('\\'),
    ensures
        unescape_bytes(encode_utf8(s)) == encode_utf8(s),
        vstd::utf8::valid_utf8(encode_utf8(s)),
        vstd::utf8::decode_utf8(encode_utf8(s)) == s,
{
    lemma_no_backslash_bytes(s);
    lemma_unescape_plain(encode_utf8(s));
    vstd::utf8::encode_utf8_valid_utf8(s);
    vstd::utf8::encode_utf8_decode_utf8(s);
}


/// The filter of the plasmoid's `parseDf`: the root, and what hangs from /home, /mnt,
/// /media or /run/media.
pub open spec fn wanted(mount: Seq<char>) -> bool {
    mount == "/"@ || "/home"@.is_prefix_of(mount) || "/mnt"@.is_prefix_of(mount)
        || "/media"@.is_prefix_of(mount) || "/run/media"@.is_prefix_of(mount)
}

fn wanted_mount(mount: &Vec<char>) -> (b: bool)
    ensures
        b == wanted(mount@),
{
    crate::config::eq_chars(mount, &chars_of("/")) || starts_with(mount, &chars_of("/home"))
        || starts_with(mount, &chars_of("/mnt")) || starts_with(mount, &chars_of("/media"))
        || starts_with(mount, &chars_of("/run/media"))
}

/// The (device, mount point) of a line of /proc/self/mounts that `df | grep '^/dev'`
/// would show and the filter keeps.
pub open spec fn mount_entry(line: Seq<char>) -> Option<(Seq<char>, Seq<char>)> {
    let w = words(line);
    if w.len() >= 2 && "/dev/"@.is_prefix_of(w[0]) && wanted(unescaped(w[1])) {
        Some((w[0], unescaped(w[1])))
    } else {
        None
    }
}

/// The entries of the lines, in file order, each once.
pub open spec fn mount_entries(ls: Seq<Seq<char>>) -> Seq<(Seq<char>, Seq<char>)>
    decreases ls.len(),
{
    if ls.len() == 0 {
        seq![]
    } else {
        let pre = mount_entries(ls.drop_last());
        match mount_entry(ls.last()) {
            Some(e) => if pre.contains(e) {
                pre
            } else {
                pre.push(e)
            },
            None => pre,
        }
    }
}

pub open spec fn pair_views(v: Seq<(String, String)>) -> Seq<(Seq<char>, Seq<char>)> {
    v.map_values(|p: (String, String)| (p.0@, p.1@))
}

/// No (device, mount point) is listed twice, though one device may be listed with
/// several mount points.
pub proof fn lemma_mount_entries_distinct(ls: Seq<Seq<char>>)
    ensures
        forall|i: int, j: int|
            0 <= i < j < mount_entries(ls).len() ==> mount_entries(ls)[i] != mount_entries(ls)[j],
    decreases ls.len(),
{
    if ls.len() > 0 {
        lemma_mount_entries_distinct(ls.drop_last());
        let pre = mount_entries(ls.drop_last());
        match mount_entry(ls.last()) {
            Some(e) => if !pre.contains(e) {
                assert forall|i: int, j: int|
                    0 <= i < j < pre.push(e).len() implies pre.push(e)[i] != pre.push(e)[j] by {
                    if j == pre.len() {
                        assert(pre.push(e)[i] == pre[i]);
                        if pre[i] == e {
                            assert(pre.contains(e));
                        }
                    } else {
                        assert(pre.push(e)[i] == pre[i] && pre.push(e)[j] == pre[j]);
                    }
                }
            },
            None => {},
        }
    }
}

/// A line of /proc/self/mounts gives an entry exactly when its first field is a device
/// under /dev/ and its mount point, once unescaped, is the root or lies under /home,
/// /mnt, /media or /run/media; the entry is the device and the unescaped mount point.
pub proof fn lemma_mount_filter(line: Seq<char>)
    ensures
        ({
            let w = words(line);
            let kept = w.len() >= 2 && "/dev/"@.is_prefix_of(w[0]) && ({
                let m = unescaped(w[1]);
                ||| m == "/"@
                ||| "/home"@.is_prefix_of(m)
                ||| "/mnt"@.is_prefix_of(m)
                ||| "/media"@.is_prefix_of(m)
                ||| "/run/media"@.is_prefix_of(m)
            });
            &&& kept ==> mount_entry(line) == Some((w[0], unescaped(w[1])))
            &&& !kept ==> mount_entry(line) is None
        }),
{
}

/// An entry is listed exactly when some line of the file gives it, whatever the lines
/// around it.
pub proof fn lemma_mount_entries_from_lines(ls: Seq<Seq<char>>, e: (Seq<char>, Seq<char>))
    ensures
        mount_entries(ls).contains(e) <==> exists|k: int| 0 <= k < ls.len() && #[trigger] mount_entry(ls[k]) == Some(e),
    decreases ls.len(),
{
    if ls.len() > 0 {
        let pre = ls.drop_last();
        lemma_mount_entries_from_lines(pre, e);
        if mount_entries(ls).contains(e) {
            if !mount_entries(pre).contains(e) {
                let last = ls.len() - 1;
                assert(mount_entry(ls[last]) == Some(e)) by {
                    let i = choose|i: int| 0 <= i < mount_entries(ls).len() && mount_entries(ls)[i] == e;
                    match mount_entry(ls.last()) {
                        Some(x) => {
                            if !mount_entries(pre).contains(x) {
                                if i < mount_entries(pre).len() {
                                    assert(mount_entries(pre).contains(e));
                                }
                            }
                        },
                        None => {},
                    }
                }
            } else {
                let k = choose|k: int| 0 <= k < pre.len() && mount_entry(pre[k]) == Some(e);
                assert(ls[k] == pre[k]);
            }
        } else {
            assert forall|k: int| 0 <= k < ls.len() implies #[trigger] mount_entry(ls[k]) != Some(e) by {
                if k < pre.len() {
                    assert(ls[k] == pre[k]);
                    if mount_entry(ls[k]) == Some(e) {
                        assert(mount_entries(pre).contains(e));
                        let i = choose|i: int| 0 <= i < mount_entries(pre).len() && mount_entries(pre)[i] == e;
                        match mount_entry(ls.last()) {
                            Some(x) => if !mount_entries(pre).contains(x) {
                                assert(mount_entries(ls)[i] == e);
                            } else {
                                assert(mount_entries(ls)[i] == e);
                            },
                            None => {
                                assert(mount_entries(ls)[i] == e);
                            },
                        }
                    }
                } else {
                    if mount_entry(ls[k]) == Some(e) {
                        if mount_entries(pre).contains(e) {
                            let i = choose|i: int| 0 <= i < mount_entries(pre).len() && mount_entries(pre)[i] == e;
                            assert(mount_entries(ls)[i] == e);
                        } else {
                            assert(mount_entries(ls)[mount_entries(pre).len() as int] == e);
                        }
                    }
                }
            }
        }
    }
}

/// (device, mount point) of the block devices that `df | grep '^/dev'` would show, in
/// the order of the file. Like df, it does not merge two subvolumes of one disk.
pub fn parse_mounts(raw: &str) -> (out: Vec<(String, String)>)
    ensures
        pair_views(out@) == mount_entries(lines(raw@)),
{
    let chars = chars_of(raw);
    let ls = lines_of(&chars);
    let dev = chars_of("/dev/");
    let ghost all = views(ls@);
    let mut out: Vec<(String, String)> = Vec::new();
    let mut seen: Vec<(Vec<char>, Vec<char>)> = Vec::new();
    let mut i: usize = 0;
    assert(all.take(0) =~= Seq::<Seq<char>>::empty());
    assert(pair_views(out@) =~= Seq::<(Seq<char>, Seq<char>)>::empty());
    while i < ls.len()
        invariant
            i <= ls.len(),
            all == views(ls@),
            dev@ == "/dev/"@,
            pair_views(out@) == mount_entries(all.take(i as int)),
            seen@.len() == out@.len(),
            forall|k: int|
                0 <= k < seen@.len() ==> (#[trigger] seen@[k]).0@ == out@[k].0@ && seen@[k].1@
                    == out@[k].1@,
        decreases ls.len() - i,
    {
        let ghost pre = all.take(i as int);
        let ghost next = all.take(i + 1);
        assert(next.drop_last() =~= pre);
        assert(next.last() == ls@[i as int]@);
        let ghost before = pair_views(out@);
        let f = words_of(&ls[i]);
        if f.len() >= 2 && starts_with(&f[0], &dev) {
            assert(views(f@)[0] == f@[0]@);
            assert(views(f@)[1] == f@[1]@);
            let mount = unescape_mount(string_of(&f[1]).as_str());
            let mount_chars = chars_of(mount.as_str());
            if wanted_mount(&mount_chars) {
                let ghost e = (f@[0]@, mount@);
                let mut k: usize = 0;
                let mut found = false;
                while k < seen.len()
                    invariant
                        k <= seen.len() == out.len(),
                        f.len() >= 2,
                        e == (f@[0]@, mount_chars@),
                        before == pair_views(out@),
                        forall|j: int|
                            0 <= j < seen@.len() ==> (#[trigger] seen@[j]).0@ == out@[j].0@
                                && seen@[j].1@ == out@[j].1@,
                        found == (exists|j: int| 0 <= j < k && before[j] == e),
                    decreases seen.len() - k,
                {
                    assert(before[k as int] == (out@[k as int].0@, out@[k as int].1@));
                    if crate::config::eq_chars(&seen[k].0, &f[0]) && crate::config::eq_chars(
                        &seen[k].1,
                        &mount_chars,
                    ) {
                        found = true;
                    }
                    k += 1;
                }
                assert(found == before.contains(e));
                if !found {
                    out.push((string_of(&f[0]), mount));
                    seen.push((copy_range(&f[0], 0, f[0].len()), mount_chars));
                    assert(pair_views(out@) =~= before.push(e));
                }
            }
        }
        assert(pair_views(out@) == mount_entries(next));
        i += 1;
    }
    assert(all.take(i as int) =~= all);
    out
}


#[derive(Clone, Debug, PartialEq)]
pub struct MountUsage {
    pub device: String,
    pub mount: String,
    /// All in bytes.
    pub size: u64,
    pub used: u64,
    pub avail: u64,
    /// Like the `Use%` column of df.
    pub percent: u32,
}

/// `n / d` rounded up.
pub open spec fn div_ceil(n: int, d: int) -> int {
    (n + d - 1) / d
}

/// What df shows for a file system: size, used and available bytes, and the used share
/// of what the user can reach (used + available), in percent rounded up.
pub open spec fn usage_spec(blocks: int, bfree: int, bavail: int, frsize: int) -> (
    int,
    int,
    int,
    int,
) {
    let size = blocks * frsize;
    let used = (if blocks > bfree {
        blocks - bfree
    } else {
        0
    }) * frsize;
    let avail = bavail * frsize;
    let percent = if used + avail == 0 {
        0
    } else {
        div_ceil(used * 100, used + avail)
    };
    (size, used, avail, percent)
}

/// (size, used, available, percent) as df computes them from `statvfs`.
pub fn usage_from(blocks: u64, bfree: u64, bavail: u64, frsize: u64) -> (out: (u64, u64, u64, u32))
    requires
        blocks * frsize <= u64::MAX,
        bavail * frsize <= u64::MAX,
    ensures
        (out.0 as int, out.1 as int, out.2 as int, out.3 as int) == usage_spec(
            blocks as int,
            bfree as int,
            bavail as int,
            frsize as int,
        ),
        out.3 <= 100,
{
    let size = blocks * frsize;
    let kept = blocks.saturating_sub(bfree);
    proof {
        assert(kept * frsize <= blocks * frsize) by (nonlinear_arith)
            requires
                kept <= blocks,
        ;
    }
    let used = kept * frsize;
    let avail = bavail * frsize;
    let denom = used as u128 + avail as u128;
    let percent: u32 = if denom == 0 {
        0
    } else {
        let n = used as u128 * 100;
        let q = (n + denom - 1) / denom;
        proof {
            let ni = n as int;
            let di = denom as int;
            assert((ni + di - 1) / di <= 100) by (nonlinear_arith)
                requires
                    ni == used * 100,
                    di == used + avail,
                    di > 0,
            ;
        }
        q as u32
    };
    (size, used, avail, percent)
}

/// The TRAN column of lsblk, from the real path of the device in sysfs. USB comes before
/// ATA because USB-SATA bridges go through both.
pub open spec fn transport_spec(resolved: Seq<char>, name: Seq<char>) -> Option<Seq<char>> {
    if "nvme"@.is_prefix_of(name) {
        Some("NVME"@)
    } else if "mmcblk"@.is_prefix_of(name) {
        Some("MMC"@)
    } else if contains(resolved, "/usb"@) {
        Some("USB"@)
    } else if contains(resolved, "/virtio"@) {
        Some("VIRTIO"@)
    } else if contains(resolved, "/ata"@) {
        Some("SATA"@)
    } else {
        None
    }
}

pub fn transport(resolved: &str, name: &str) -> (out: Option<&'static str>)
    ensures
        match out {
            Some(t) => transport_spec(resolved@, name@) == Some(t@),
            None => transport_spec(resolved@, name@) is None,
        },
{
    let r = chars_of(resolved);
    let n = chars_of(name);
    if starts_with(&n, &chars_of("nvme")) {
        Some("NVME")
    } else if starts_with(&n, &chars_of("mmcblk")) {
        Some("MMC")
    } else if contains_of(&r, &chars_of("/usb")) {
        Some("USB")
    } else if contains_of(&r, &chars_of("/virtio")) {
        Some("VIRTIO")
    } else if contains_of(&r, &chars_of("/ata")) {
        Some("SATA")
    } else {
        None
    }
}

/// Index of the first usage of device `path`, or `usages.len()`.
pub open spec fn first_usage(usages: Seq<MountUsage>, path: Seq<char>) -> int
    decreases usages.len(),
{
    if usages.len() == 0 {
        0
    } else if usages[0].device@ == path {
        0
    } else {
        1 + first_usage(usages.drop_first(), path)
    }
}

/// The index of the usage of the first of `devs` that has one.
pub open spec fn usage_index(devs: Seq<Seq<char>>, usages: Seq<MountUsage>) -> Option<int>
    decreases devs.len(),
{
    if devs.len() == 0 {
        None
    } else if first_usage(usages, "/dev/"@ + devs[0]) < usages.len() {
        Some(first_usage(usages, "/dev/"@ + devs[0]))
    } else {
        usage_index(devs.drop_first(), usages)
    }
}

proof fn lemma_first_usage(usages: Seq<MountUsage>, path: Seq<char>, k: int)
    requires
        0 <= k <= usages.len(),
        forall|j: int| 0 <= j < k ==> usages[j].device@ != path,
        k == usages.len() || usages[k].device@ == path,
    ensures
        first_usage(usages, path) == k,
    decreases k,
{
    if k > 0 {
        lemma_first_usage(usages.drop_first(), path, k - 1);
    }
}

fn find_usage(usages: &[MountUsage], path: &Vec<char>) -> (k: usize)
    ensures
        k == first_usage(usages@, path@),
{
    let mut k: usize = 0;
    while k < usages.len()
        invariant
            k <= usages.len(),
            forall|j: int| 0 <= j < k ==> usages@[j].device@ != path@,
        decreases usages.len() - k,
    {
        if crate::config::eq_chars(&chars_of(usages[k].device.as_str()), path) {
            proof {
                lemma_first_usage(usages@, path@, k as int);
            }
            return k;
        }
        k += 1;
    }
    proof {
        lemma_first_usage(usages@, path@, k as int);
    }
    k
}

/// The usage of the whole disk or of its first partition that has one, in partition
/// order: what `usageForNode` does walking the children of lsblk.
pub fn usage_for<'a>(disk: &str, partitions: &[String], usages: &'a [MountUsage]) -> (out: Option<
    &'a MountUsage,
>)
    ensures
        match usage_index(seq![disk@] + partitions@.map_values(|p: String| p@), usages@) {
            Some(k) => out == Some(&usages@[k]),
            None => out is None,
        },
{
    let ghost devs = seq![disk@] + partitions@.map_values(|p: String| p@);
    let dev = chars_of("/dev/");
    let mut path = dev.clone();
    push_str(&mut path, disk);
    assert(devs[0] == disk@);
    let k = find_usage(usages, &path);
    if k < usages.len() {
        return Some(&usages[k]);
    }
    let mut i: usize = 0;
    assert(devs.drop_first() =~= devs.skip(1));
    while i < partitions.len()
        invariant
            i <= partitions.len(),
            dev@ == "/dev/"@,
            devs == seq![disk@] + partitions@.map_values(|p: String| p@),
            usage_index(devs, usages@) == usage_index(devs.skip(i + 1), usages@),
        decreases partitions.len() - i,
    {
        let ghost rest = devs.skip(i + 1);
        assert(rest[0] == partitions@[i as int]@);
        assert(rest.drop_first() =~= devs.skip(i + 2));
        let mut path = dev.clone();
        push_str(&mut path, partitions[i].as_str());
        let k = find_usage(usages, &path);
        if k < usages.len() {
            return Some(&usages[k]);
        }
        i += 1;
    }
    assert(devs.skip(i + 1) =~= Seq::<Seq<char>>::empty());
    None
}

/// A block device of the inventory of the storage panel.
#[derive(Clone, Debug, PartialEq)]
pub struct BlockDevice {
    /// The model, or the kernel's name when there is none.
    pub name: String,
    pub path: String,
    /// Bytes.
    pub size: u64,
    /// "SATA", "USB • Extraíble", "Disco"…
    pub detail: String,
    pub usage: Option<MountUsage>,
}


/// The names of `/sys/block` that the inventory lists: whole disks but md arrays, which
/// lsblk reports as RAID and the plasmoid leaves out.
pub open spec fn listed_disk(name: Seq<char>) -> bool {
    whole_disk(name) && !"md"@.is_prefix_of(name)
}

/// The items of `names` that satisfy `keep`, in their order.
pub open spec fn keep_names(names: Seq<Seq<char>>, keep: spec_fn(Seq<char>) -> bool) -> Seq<
    Seq<char>,
>
    decreases names.len(),
{
    if names.len() == 0 {
        seq![]
    } else if keep(names.last()) {
        keep_names(names.drop_last(), keep).push(names.last())
    } else {
        keep_names(names.drop_last(), keep)
    }
}

/// The disks of the inventory among the entries of `/sys/block`, by name.
pub fn disk_names(entries: Vec<String>) -> (out: Vec<String>)
    ensures
        sorted_by(string_views(out@), |a: Seq<char>, b: Seq<char>| chars_lt(a, b)),
        string_views(out@).to_multiset() == keep_names(
            string_views(entries@),
            |n: Seq<char>| listed_disk(n),
        ).to_multiset(),
{
    let md = chars_of("md");
    let mut kept: Vec<String> = Vec::new();
    let mut i: usize = 0;
    assert(string_views(entries@).take(0) =~= Seq::<Seq<char>>::empty());
    assert(string_views(kept@) =~= Seq::<Seq<char>>::empty());
    while i < entries.len()
        invariant
            i <= entries.len(),
            md@ == "md"@,
            string_views(kept@) == keep_names(
                string_views(entries@).take(i as int),
                |n: Seq<char>| listed_disk(n),
            ),
        decreases entries.len() - i,
    {
        let ghost pre = string_views(entries@).take(i as int);
        let ghost next = string_views(entries@).take(i + 1);
        assert(next.drop_last() =~= pre);
        assert(next.last() == entries@[i as int]@);
        let name = chars_of(entries[i].as_str());
        if is_whole_disk_chars(&name) && !starts_with(&name, &md) {
            let ghost before = string_views(kept@);
            kept.push(entries[i].clone());
            assert(string_views(kept@) =~= before.push(entries@[i as int]@));
        }
        i += 1;
    }
    assert(string_views(entries@).take(i as int) =~= string_views(entries@));
    sort_names(kept)
}

/// Whether `entry` of a disk's directory in `/sys/block` is one of its partitions.
pub open spec fn is_partition_of(disk: Seq<char>, entry: Seq<char>) -> bool {
    disk.is_prefix_of(entry) && entry != disk
}

/// The partitions of `disk` among the entries of its directory, by length and then by
/// name: `sda2` before `sda10`.
pub fn partitions_of(disk: &str, entries: Vec<String>) -> (out: Vec<String>)
    ensures
        sorted_by(string_views(out@), |a: Seq<char>, b: Seq<char>| partition_lt(a, b)),
        string_views(out@).to_multiset() == keep_names(
            string_views(entries@),
            |n: Seq<char>| is_partition_of(disk@, n),
        ).to_multiset(),
{
    let d = chars_of(disk);
    let mut kept: Vec<String> = Vec::new();
    let mut i: usize = 0;
    assert(string_views(entries@).take(0) =~= Seq::<Seq<char>>::empty());
    assert(string_views(kept@) =~= Seq::<Seq<char>>::empty());
    while i < entries.len()
        invariant
            i <= entries.len(),
            d@ == disk@,
            string_views(kept@) == keep_names(
                string_views(entries@).take(i as int),
                |n: Seq<char>| is_partition_of(disk@, n),
            ),
        decreases entries.len() - i,
    {
        let ghost pre = string_views(entries@).take(i as int);
        let ghost next = string_views(entries@).take(i + 1);
        assert(next.drop_last() =~= pre);
        assert(next.last() == entries@[i as int]@);
        let name = chars_of(entries[i].as_str());
        if starts_with(&name, &d) && !crate::config::eq_chars(&name, &d) {
            let ghost before = string_views(kept@);
            kept.push(entries[i].clone());
            assert(string_views(kept@) =~= before.push(entries@[i as int]@));
        }
        i += 1;
    }
    assert(string_views(entries@).take(i as int) =~= string_views(entries@));
    sort_partitions(kept)
}

fn duplicate(u: &MountUsage) -> (c: MountUsage)
    ensures
        c == *u,
{
    MountUsage {
        device: u.device.clone(),
        mount: u.mount.clone(),
        size: u.size,
        used: u.used,
        avail: u.avail,
        percent: u.percent,
    }
}

/// The detail line of a device: its transport, or "Disco", and whether it is removable.
pub open spec fn device_detail(resolved: Seq<char>, name: Seq<char>, removable: bool) -> Seq<
    char,
> {
    (match transport_spec(resolved, name) {
        Some(t) => t,
        None => "Disco"@,
    }) + if removable {
        " • Extraíble"@
    } else {
        Seq::<char>::empty()
    }
}

/// The inventory entry of disk `name`: `resolved` is the real path of its directory in
/// sysfs, `size_sectors` its `size` file, `model` its `device/model` file (empty when
/// there is none), and `partitions` its partitions in order.
pub fn block_device(
    name: &str,
    resolved: &str,
    size_sectors: u64,
    model: &str,
    removable: bool,
    partitions: &[String],
    usages: &[MountUsage],
) -> (out: BlockDevice)
    requires
        size_sectors * 512 <= u64::MAX,
    ensures
        out.name@ == if model@.len() == 0 {
            name@
        } else {
            model@
        },
        out.path@ == "/dev/"@ + name@,
        out.size == size_sectors * 512,
        out.detail@ == device_detail(resolved@, name@, removable),
        out.usage == match usage_index(
            seq![name@] + partitions@.map_values(|p: String| p@),
            usages@,
        ) {
            Some(k) => Some(usages@[k]),
            None => None::<MountUsage>,
        },
{
    let mut detail: Vec<char> = Vec::new();
    match transport(resolved, name) {
        Some(t) => push_str(&mut detail, t),
        None => push_str(&mut detail, "Disco"),
    }
    if removable {
        push_str(&mut detail, " • Extraíble");
    }
    assert(detail@ =~= device_detail(resolved@, name@, removable));
    let mut path: Vec<char> = chars_of("/dev/");
    push_str(&mut path, name);
    let usage = match usage_for(name, partitions, usages) {
        Some(u) => Some(duplicate(u)),
        None => None,
    };
    BlockDevice {
        name: if model.is_empty() {
            name.to_string()
        } else {
            model.to_string()
        },
        path: string_of(&path),
        size: size_sectors * 512,
        detail: string_of(&detail),
        usage,
    }
}

} // verus!
