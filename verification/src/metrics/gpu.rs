//! GPU: names from pci.ids, which is where `lspci` takes them from; the fields of the
//! CSV that `nvidia-smi` prints; the clock marked in `pp_dpm_sclk`; and which devices
//! of sysfs join those of `nvidia-smi`.

use vstd::prelude::*;

use crate::text::{
    ascii_lower, chars_of, copy_range, find_from, find_len, lines, lines_of, parse_radix, parse_unsigned,
    push_str, split, split_of, split_once, split_once_of, starts_with, string_of, strip_prefix,
    strip_prefix_of, trim, trimmed, views,
};

verus! {

broadcast use vstd::string::group_string_axioms;

/// `s` without every leading `0x`, as `trim_start_matches("0x")` leaves it.
pub open spec fn strip_0x(s: Seq<char>) -> Seq<char>
    decreases s.len(),
{
    if "0x"@.len() > 0 && "0x"@.is_prefix_of(s) {
        strip_0x(s.skip("0x"@.len() as int))
    } else {
        s
    }
}

/// A PCI id as sysfs writes it (`0x1002`): hexadecimal, with or without `0x`.
pub open spec fn hex_id(s: Seq<char>) -> Option<int> {
    parse_unsigned(strip_0x(trim(s)), 16, u16::MAX as int)
}

/// The PCI id of a sysfs `vendor` or `device` file.
pub fn parse_hex_id(raw: &str) -> (out: Option<u16>)
    ensures
        match out {
            Some(v) => hex_id(raw@) == Some(v as int),
            None => hex_id(raw@) is None,
        },
{
    let mut s = trimmed(&chars_of(raw));
    let ox = chars_of("0x");
    proof {
        reveal_strlit("0x");
    }
    loop
        invariant
            ox@ == "0x"@,
            ox@.len() == 2,
            strip_0x(s@) == strip_0x(trim(raw@)),
        decreases s.len(),
    {
        match strip_prefix_of(&s, &ox) {
            Some(rest) => {
                s = rest;
            },
            None => {
                return match parse_radix(&s, 16, u16::MAX as u64) {
                    Some(v) => Some(v as u16),
                    None => None,
                };
            },
        }
    }
}

/// A digit of lowercase hexadecimal.
pub open spec fn hex_digit(d: int) -> char {
    if d < 10 {
        (d + 0x30) as char
    } else {
        (d - 10 + 0x61) as char
    }
}

/// `format!("{v:04x}")`.
pub open spec fn hex4(v: int) -> Seq<char> {
    seq![hex_digit((v / 4096) % 16), hex_digit((v / 256) % 16), hex_digit((v / 16) % 16), hex_digit(v % 16)]
}

fn hex_digit_char(d: u16) -> (c: char)
    requires
        d < 16,
    ensures
        c == hex_digit(d as int),
{
    if d < 10 {
        ((d as u8) + 0x30) as char
    } else {
        ((d as u8) - 10 + 0x61) as char
    }
}

fn hex4_chars(v: u16) -> (out: Vec<char>)
    ensures
        out@ == hex4(v as int),
{
    let mut out: Vec<char> = Vec::new();
    out.push(hex_digit_char((v / 4096) % 16));
    out.push(hex_digit_char((v / 256) % 16));
    out.push(hex_digit_char((v / 16) % 16));
    out.push(hex_digit_char(v % 16));
    assert(out@ =~= hex4(v as int));
    out
}

/// The walk of pci.ids: until the vendor line is found, then over its devices.
pub open spec fn pci_scan(
    ls: Seq<Seq<char>>,
    vendor: Option<Seq<char>>,
    vh: Seq<char>,
    dh: Seq<char>,
) -> Option<Seq<char>>
    decreases ls.len(),
{
    if ls.len() == 0 {
        None
    } else {
        let line = ls[0];
        let rest = ls.drop_first();
        if line.len() == 0 || line[0] == '#' {
            pci_scan(rest, vendor, vh, dh)
        } else {
            match vendor {
                None => match strip_prefix(line, vh) {
                    Some(r) => if "  "@.is_prefix_of(r) {
                        pci_scan(rest, Some(trim(r)), vh, dh)
                    } else {
                        pci_scan(rest, None, vh, dh)
                    },
                    None => pci_scan(rest, None, vh, dh),
                },
                Some(v) => if "\t\t"@.is_prefix_of(line) {
                    // Two tabs: a subsystem, not a device.
                    pci_scan(rest, vendor, vh, dh)
                } else {
                    match strip_prefix(line, "\t"@) {
                        // No tab: the next vendor has begun.
                        None => None,
                        Some(entry) => match strip_prefix(entry, dh) {
                            Some(r) => if "  "@.is_prefix_of(r) {
                                Some(v + " "@ + trim(r))
                            } else {
                                pci_scan(rest, vendor, vh, dh)
                            },
                            None => pci_scan(rest, vendor, vh, dh),
                        },
                    }
                },
            }
        }
    }
}

/// "Vendor Device" from pci.ids, which is where `lspci` takes it from.
pub open spec fn pci_name_spec(pci_ids: Seq<char>, vendor: int, device: int) -> Option<
    Seq<char>,
> {
    pci_scan(lines(pci_ids), None, hex4(vendor), hex4(device))
}

pub fn pci_name(pci_ids: &str, vendor: u16, device: u16) -> (out: Option<String>)
    ensures
        match out {
            Some(n) => pci_name_spec(pci_ids@, vendor as int, device as int) == Some(n@),
            None => pci_name_spec(pci_ids@, vendor as int, device as int) is None,
        },
{
    let vh = hex4_chars(vendor);
    let dh = hex4_chars(device);
    let two = chars_of("  ");
    let tabs = chars_of("\t\t");
    let tab = chars_of("\t");
    let ls = lines_of(&chars_of(pci_ids));
    let ghost all = views(ls@);
    let mut vendor_name: Option<Vec<char>> = None;
    let mut i: usize = 0;
    assert(all.skip(0) =~= all);
    while i < ls.len()
        invariant
            i <= ls.len(),
            all == views(ls@),
            two@ == "  "@,
            tabs@ == "\t\t"@,
            tab@ == "\t"@,
            pci_name_spec(pci_ids@, vendor as int, device as int) == pci_scan(
                all.skip(i as int),
                match vendor_name {
                    Some(v) => Some(v@),
                    None => None::<Seq<char>>,
                },
                vh@,
                dh@,
            ),
        decreases ls.len() - i,
    {
        let ghost rest = all.skip(i as int);
        assert(rest[0] == ls@[i as int]@);
        assert(rest.drop_first() =~= all.skip(i + 1));
        let line = &ls[i];
        if line.len() == 0 || line[0] == '#' {
            i += 1;
            continue;
        }
        match &vendor_name {
            None => {
                if let Some(r) = strip_prefix_of(line, &vh) {
                    if starts_with(&r, &two) {
                        vendor_name = Some(trimmed(&r));
                    }
                }
            },
            Some(v) => {
                if starts_with(line, &tabs) {
                    i += 1;
                    continue;
                }
                let entry = match strip_prefix_of(line, &tab) {
                    Some(e) => e,
                    None => {
                        return None;
                    },
                };
                if let Some(r) = strip_prefix_of(&entry, &dh) {
                    if starts_with(&r, &two) {
                        let mut out = v.clone();
                        push_str(&mut out, " ");
                        let t = trimmed(&r);
                        let ghost before = out@;
                        let mut k: usize = 0;
                        while k < t.len()
                            invariant
                                k <= t.len(),
                                out@ == before + t@.take(k as int),
                            decreases t.len() - k,
                        {
                            out.push(t[k]);
                            k += 1;
                            assert(out@ =~= before + t@.take(k as int));
                        }
                        assert(t@.take(k as int) =~= t@);
                        return Some(string_of(&out));
                    }
                }
            },
        }
        i += 1;
    }
    assert(all.skip(i as int) =~= Seq::<Seq<char>>::empty());
    None
}

/// `a + b` is a prefix of `s` exactly when `a` is, and `b` is a prefix of what follows.
proof fn lemma_prefix_concat(a: Seq<char>, b: Seq<char>, s: Seq<char>)
    ensures
        (a + b).is_prefix_of(s) <==> (a.is_prefix_of(s) && b.is_prefix_of(s.skip(a.len() as int))),
{
    if (a + b).is_prefix_of(s) {
        assert forall|i: int| 0 <= i < a.len() implies a[i] == s[i] by {
            assert((a + b)[i] == s.subrange(0, (a + b).len() as int)[i]);
        }
        assert(a =~= s.subrange(0, a.len() as int));
        assert forall|i: int| 0 <= i < b.len() implies b[i] == s.skip(a.len() as int)[i] by {
            assert((a + b)[a.len() + i] == s.subrange(0, (a + b).len() as int)[a.len() + i]);
        }
        assert(b =~= s.skip(a.len() as int).subrange(0, b.len() as int));
    }
    if a.is_prefix_of(s) && b.is_prefix_of(s.skip(a.len() as int)) {
        assert forall|i: int| 0 <= i < (a + b).len() implies (a + b)[i] == s[i] by {
            if i < a.len() {
                assert(a[i] == s.subrange(0, a.len() as int)[i]);
            } else {
                assert(b[i - a.len()] == s.skip(a.len() as int).subrange(0, b.len() as int)[i - a.len()]);
            }
        }
        assert((a + b) =~= s.subrange(0, (a + b).len() as int));
    }
}

proof fn lemma_hex4_digits(v: int)
    ensures
        hex4(v).len() == 4,
        hex4(v)[0] != '#',
        hex4(v)[0] != '\t',
{
    let d = (v / 4096) % 16;
    assert(0 <= d < 16);
    assert(hex4(v)[0] == hex_digit(d));
    if d < 10 {
        assert((d + 0x30) as char as u32 >= 0x30);
    } else {
        assert((d - 10 + 0x61) as char as u32 >= 0x61);
    }
}

/// Within a vendor's block, the walk passes over comments, empty lines, subsystems and
/// the other devices until the device asked for.
proof fn lemma_scan_block(ls: Seq<Seq<char>>, j: int, d: int, v: Seq<char>, vh: Seq<char>, dh: Seq<char>)
    requires
        0 <= j <= d < ls.len(),
        dh.len() == 4,
        dh[0] != '\t',
        ("\t"@ + dh + "  "@).is_prefix_of(ls[d]),
        forall|k: int|
            j <= k < d ==> ls[k].len() == 0 || ls[k][0] == '#' || ("\t"@.is_prefix_of(ls[k])
                && !("\t"@ + dh + "  "@).is_prefix_of(ls[k])),
    ensures
        pci_scan(ls.skip(j), Some(v), vh, dh) == Some(v + " "@ + trim(ls[d].skip(5))),
    decreases d - j,
{
    reveal_strlit("\t");
    reveal_strlit("\t\t");
    reveal_strlit("  ");
    let t = ls.skip(j);
    let line = ls[j];
    assert(t[0] == line);
    assert(t.drop_first() =~= ls.skip(j + 1));
    lemma_prefix_concat("\t"@ + dh, "  "@, line);
    lemma_prefix_concat("\t"@, dh, line);
    if j == d {
        assert(line.len() >= 7);
        assert("\t"@.is_prefix_of(line));
        assert("\t"@[0] == line.subrange(0, 1)[0]);
        assert(line[0] == '\t');
        assert(line[1] == dh[0]) by {
            assert(line.skip(1)[0] == line[1]);
            assert(dh[0] == line.skip(1).subrange(0, 4)[0]);
        }
        assert(!"\t\t"@.is_prefix_of(line)) by {
            if "\t\t"@.is_prefix_of(line) {
                assert("\t\t"@[1] == line.subrange(0, 2)[1]);
            }
        }
        let entry = line.skip(1);
        assert(strip_prefix(line, "\t"@) == Some(entry));
        assert(strip_prefix(entry, dh) == Some(entry.skip(4)));
        assert(entry.skip(4) =~= line.skip(5));
        assert(line.skip(5) =~= line.skip(("\t"@ + dh).len() as int));
    } else {
        lemma_scan_block(ls, j + 1, d, v, vh, dh);
        if line.len() == 0 || line[0] == '#' {
        } else if "\t\t"@.is_prefix_of(line) {
        } else {
            let entry = line.skip(1);
            assert(strip_prefix(line, "\t"@) == Some(entry));
            match strip_prefix(entry, dh) {
                Some(r) => {
                    assert(r =~= line.skip(("\t"@ + dh).len() as int));
                    if "  "@.is_prefix_of(r) {
                        assert(dh.is_prefix_of(line.skip(1)));
                        assert(false);
                    }
                },
                None => {},
            }
        }
    }
}

/// Before the vendor's line, the walk passes over every line that is not it.
proof fn lemma_scan_vendor(ls: Seq<Seq<char>>, j: int, a: int, vh: Seq<char>, dh: Seq<char>)
    requires
        0 <= j <= a < ls.len(),
        vh.len() == 4,
        vh[0] != '#',
        (vh + "  "@).is_prefix_of(ls[a]),
        forall|k: int| j <= k < a ==> !(vh + "  "@).is_prefix_of(#[trigger] ls[k]),
    ensures
        pci_scan(ls.skip(j), None, vh, dh) == pci_scan(ls.skip(a + 1), Some(trim(ls[a].skip(4))), vh, dh),
    decreases a - j,
{
    reveal_strlit("  ");
    let t = ls.skip(j);
    let line = ls[j];
    assert(t[0] == line);
    assert(t.drop_first() =~= ls.skip(j + 1));
    lemma_prefix_concat(vh, "  "@, line);
    if j == a {
        assert(line.len() >= 6);
        assert(line[0] == vh[0]) by {
            assert(vh[0] == line.subrange(0, 4)[0]);
        }
        assert(strip_prefix(line, vh) == Some(line.skip(4)));
    } else {
        lemma_scan_vendor(ls, j + 1, a, vh, dh);
        if line.len() == 0 || line[0] == '#' {
        } else {
            match strip_prefix(line, vh) {
                Some(r) => {
                    if "  "@.is_prefix_of(r) {
                        assert(false);
                    }
                },
                None => {},
            }
        }
    }
}

/// pci.ids names a device by its vendor's block: when the first vendor line
/// `vvvv  Vendor` of the file is followed, before the next line that starts without a
/// tab (comments and empty lines aside), by a device line `\tdddd  Device`, and no
/// device line for `dddd` comes before it in the block, the name is "Vendor Device",
/// whatever other devices and subsystems the block lists before it.
pub proof fn lemma_pci_name_in_block(ids: Seq<char>, vendor: u16, device: u16, a: int, d: int)
    requires
        0 <= a < d < lines(ids).len(),
        (hex4(vendor as int) + "  "@).is_prefix_of(lines(ids)[a]),
        forall|k: int| 0 <= k < a ==> !(hex4(vendor as int) + "  "@).is_prefix_of(#[trigger] lines(ids)[k]),
        ("\t"@ + hex4(device as int) + "  "@).is_prefix_of(lines(ids)[d]),
        forall|k: int|
            a < k < d ==> #[trigger] lines(ids)[k].len() == 0 || lines(ids)[k][0] == '#' || (
            "\t"@.is_prefix_of(lines(ids)[k]) && !("\t"@ + hex4(device as int) + "  "@).is_prefix_of(
                lines(ids)[k],
            )),
    ensures
        pci_name_spec(ids, vendor as int, device as int) == Some(
            trim(lines(ids)[a].skip(4)) + " "@ + trim(lines(ids)[d].skip(5)),
        ),
{
    let ls = lines(ids);
    let vh = hex4(vendor as int);
    let dh = hex4(device as int);
    lemma_hex4_digits(vendor as int);
    lemma_hex4_digits(device as int);
    assert(ls.skip(0) =~= ls);
    lemma_scan_vendor(ls, 0, a, vh, dh);
    lemma_scan_block(ls, a + 1, d, trim(ls[a].skip(4)), vh, dh);
}

/// The id of a device of sysfs: its PCI slot, the name of the real directory behind
/// `cardN/device`, when that name holds a `:`; else the card's name.
pub open spec fn device_id_spec(slot: Option<Seq<char>>, card: Seq<char>) -> Seq<char> {
    match slot {
        Some(n) => if n.contains(':') {
            n
        } else {
            card
        },
        None => card,
    }
}

pub fn device_id(slot: Option<&str>, card: &str) -> (out: String)
    ensures
        out@ == device_id_spec(
            match slot {
                Some(n) => Some(n@),
                None => None::<Seq<char>>,
            },
            card@,
        ),
{
    match slot {
        Some(n) => {
            let c = chars_of(n);
            let mut colon = false;
            let mut i: usize = 0;
            while i < c.len()
                invariant
                    i <= c.len(),
                    c@ == n@,
                    colon <==> exists|j: int| 0 <= j < i && c@[j] == ':',
                decreases c.len() - i,
            {
                if c[i] == ':' {
                    colon = true;
                }
                i += 1;
            }
            assert(colon <==> n@.contains(':'));
            if colon {
                n.to_string()
            } else {
                card.to_string()
            }
        },
        None => card.to_string(),
    }
}

/// The name that a device of sysfs shows: "Vendor Device" from pci.ids when its
/// `vendor` and `device` files read as ids and pci.ids knows them; else the card's name.
pub open spec fn device_name_spec(
    vendor: Option<Seq<char>>,
    device: Option<Seq<char>>,
    pci_ids: Option<Seq<char>>,
    card: Seq<char>,
) -> Seq<char> {
    match (vendor, device, pci_ids) {
        (Some(v), Some(d), Some(ids)) => match (hex_id(v), hex_id(d)) {
            (Some(vi), Some(di)) => match pci_name_spec(ids, vi, di) {
                Some(n) => n,
                None => card,
            },
            _ => card,
        },
        _ => card,
    }
}

/// The name of a device from the texts of its `vendor` and `device` files and of
/// pci.ids, each where it could be read.
pub fn device_name(vendor: Option<&str>, device: Option<&str>, pci_ids: Option<&str>, card: &str) -> (out: String)
    ensures
        out@ == device_name_spec(
            match vendor {
                Some(v) => Some(v@),
                None => None::<Seq<char>>,
            },
            match device {
                Some(d) => Some(d@),
                None => None::<Seq<char>>,
            },
            match pci_ids {
                Some(i) => Some(i@),
                None => None::<Seq<char>>,
            },
            card@,
        ),
{
    match (vendor, device, pci_ids) {
        (Some(v), Some(d), Some(ids)) => match (parse_hex_id(v), parse_hex_id(d)) {
            (Some(vi), Some(di)) => match pci_name(ids, vi, di) {
                Some(n) => n,
                None => card.to_string(),
            },
            _ => card.to_string(),
        },
        _ => card.to_string(),
    }
}

/// The fields of a line of the CSV that `nvidia-smi` prints, trimmed.
pub open spec fn csv_spec(line: Seq<char>) -> Seq<Seq<char>> {
    split(line, ',').map_values(|f: Seq<char>| trim(f))
}

pub fn csv_fields(line: &str) -> (out: Vec<String>)
    ensures
        out@.map_values(|f: String| f@) == csv_spec(line@),
{
    csv_of(&chars_of(line))
}

fn csv_of(line: &Vec<char>) -> (out: Vec<String>)
    ensures
        out@.map_values(|f: String| f@) == csv_spec(line@),
{
    let parts = split_of(line, ',');
    let mut out: Vec<String> = Vec::new();
    let mut i: usize = 0;
    while i < parts.len()
        invariant
            i <= parts.len(),
            views(parts@) == split(line@, ','),
            out.len() == i,
            forall|j: int| 0 <= j < i ==> (#[trigger] out@[j])@ == trim(views(parts@)[j]),
        decreases parts.len() - i,
    {
        let t = trimmed(&parts[i]);
        assert(views(parts@)[i as int] == parts@[i as int]@);
        out.push(string_of(&t));
        i += 1;
    }
    assert(out@.map_values(|f: String| f@) =~= csv_spec(line@));
    out
}

pub open spec fn field_views(r: Vec<String>) -> Seq<Seq<char>> {
    r@.map_values(|f: String| f@)
}

/// The rows of `nvidia-smi --query-gpu=name,utilization.gpu,clocks.current.graphics,
/// temperature.gpu,memory.used,memory.total`: the fields of each line that has the six
/// asked for. A line of another shape is not a device.
pub open spec fn gpu_rows(ls: Seq<Seq<char>>) -> Seq<Seq<Seq<char>>>
    decreases ls.len(),
{
    if ls.len() == 0 {
        seq![]
    } else if csv_spec(ls.last()).len() >= 6 {
        gpu_rows(ls.drop_last()).push(csv_spec(ls.last()))
    } else {
        gpu_rows(ls.drop_last())
    }
}

pub fn nvidia_gpu_rows(raw: &str) -> (out: Vec<Vec<String>>)
    ensures
        out@.map_values(|r: Vec<String>| field_views(r)) == gpu_rows(lines(raw@)),
{
    let ls = lines_of(&chars_of(raw));
    let ghost all = views(ls@);
    let mut out: Vec<Vec<String>> = Vec::new();
    let mut i: usize = 0;
    assert(all.take(0) =~= Seq::<Seq<char>>::empty());
    while i < ls.len()
        invariant
            i <= ls.len(),
            all == views(ls@),
            all == lines(raw@),
            out@.map_values(|r: Vec<String>| field_views(r)) == gpu_rows(all.take(i as int)),
        decreases ls.len() - i,
    {
        let ghost next = all.take(i + 1);
        assert(next.drop_last() =~= all.take(i as int));
        assert(next.last() == ls@[i as int]@);
        let f = csv_of(&ls[i]);
        if f.len() >= 6 {
            let ghost before = out@.map_values(|r: Vec<String>| field_views(r));
            out.push(f);
            assert(out@.map_values(|r: Vec<String>| field_views(r)) =~= before.push(csv_spec(next.last())));
        }
        i += 1;
    }
    assert(all.take(i as int) =~= all);
    out
}

/// A line of `nvidia-smi --query-compute-apps=pid,process_name,used_memory`: the pid,
/// which must be positive, the name, which must not be empty, and the memory as text.
pub open spec fn app_entry(f: Seq<Seq<char>>) -> Option<(int, Seq<char>, Seq<char>)> {
    if f.len() < 3 {
        None
    } else {
        match parse_unsigned(f[0], 10, u32::MAX as int) {
            Some(pid) => if pid > 0 && f[1].len() > 0 {
                Some((pid, f[1], f[2]))
            } else {
                None
            },
            None => None,
        }
    }
}

pub open spec fn app_rows(ls: Seq<Seq<char>>) -> Seq<(int, Seq<char>, Seq<char>)>
    decreases ls.len(),
{
    if ls.len() == 0 {
        seq![]
    } else {
        match app_entry(csv_spec(ls.last())) {
            Some(e) => app_rows(ls.drop_last()).push(e),
            None => app_rows(ls.drop_last()),
        }
    }
}

pub open spec fn app_views(v: Seq<(u32, String, String)>) -> Seq<(int, Seq<char>, Seq<char>)> {
    v.map_values(|e: (u32, String, String)| (e.0 as int, e.1@, e.2@))
}

/// The processes that `nvidia-smi` lists: pid, name and memory as text.
pub fn nvidia_app_fields(raw: &str) -> (out: Vec<(u32, String, String)>)
    ensures
        app_views(out@) == app_rows(lines(raw@)),
{
    let ls = lines_of(&chars_of(raw));
    let ghost all = views(ls@);
    let mut out: Vec<(u32, String, String)> = Vec::new();
    let mut i: usize = 0;
    assert(all.take(0) =~= Seq::<Seq<char>>::empty());
    while i < ls.len()
        invariant
            i <= ls.len(),
            all == views(ls@),
            all == lines(raw@),
            app_views(out@) == app_rows(all.take(i as int)),
        decreases ls.len() - i,
    {
        let ghost next = all.take(i + 1);
        assert(next.drop_last() =~= all.take(i as int));
        assert(next.last() == ls@[i as int]@);
        let f = csv_of(&ls[i]);
        let ghost fv = f@.map_values(|x: String| x@);
        if f.len() >= 3 {
            assert(fv[0] == f@[0]@ && fv[1] == f@[1]@ && fv[2] == f@[2]@);
            let pid = parse_radix(&chars_of(f[0].as_str()), 10, u32::MAX as u64);
            match pid {
                Some(pid) => {
                    if pid > 0 && !f[1].as_str().is_empty() {
                        let ghost before = app_views(out@);
                        out.push((pid as u32, f[1].clone(), f[2].clone()));
                        assert(app_views(out@) =~= before.push((pid as int, fv[1], fv[2])));
                    }
                },
                None => {},
            }
        }
        i += 1;
    }
    assert(all.take(i as int) =~= all);
    out
}

/// An id and a name of a device: (`id`, `name`).
pub open spec fn pair_views(v: Seq<(String, String)>) -> Seq<(Seq<char>, Seq<char>)> {
    v.map_values(|p: (String, String)| (p.0@, p.1@))
}

/// Whether `d` repeats the id or the name of a device of `m`.
pub open spec fn clashes(m: Seq<(Seq<char>, Seq<char>)>, d: (Seq<char>, Seq<char>)) -> bool {
    exists|k: int| 0 <= k < m.len() && (m[k].0 == d.0 || m[k].1 == d.1)
}

/// The NVIDIA devices first, then the sysfs ones that repeat neither the name nor the id
/// of one already listed.
pub open spec fn merged_ids(
    nvidia: Seq<(Seq<char>, Seq<char>)>,
    sysfs: Seq<(Seq<char>, Seq<char>)>,
) -> Seq<(Seq<char>, Seq<char>)>
    decreases sysfs.len(),
{
    if sysfs.len() == 0 {
        nvidia
    } else {
        let m = merged_ids(nvidia, sysfs.drop_last());
        if clashes(m, sysfs.last()) {
            m
        } else {
            m.push(sysfs.last())
        }
    }
}

/// Which sysfs devices join the NVIDIA ones, given the (id, name) of each: those that
/// repeat neither the name nor the id of a device listed before them.
pub fn sysfs_kept(nvidia: &Vec<(String, String)>, sysfs: &Vec<(String, String)>) -> (out: Vec<bool>)
    ensures
        out.len() == sysfs.len(),
        forall|i: int|
            0 <= i < sysfs.len() ==> #[trigger] out@[i] == !clashes(
                merged_ids(pair_views(nvidia@), pair_views(sysfs@).take(i)),
                pair_views(sysfs@)[i],
            ),
{
    let ghost nv = pair_views(nvidia@);
    let ghost sy = pair_views(sysfs@);
    let mut merged: Vec<(String, String)> = Vec::new();
    let mut j: usize = 0;
    while j < nvidia.len()
        invariant
            j <= nvidia.len(),
            pair_views(merged@) == pair_views(nvidia@).take(j as int),
        decreases nvidia.len() - j,
    {
        let ghost before = pair_views(merged@);
        merged.push((nvidia[j].0.clone(), nvidia[j].1.clone()));
        assert(pair_views(merged@) =~= before.push(pair_views(nvidia@)[j as int]));
        assert(pair_views(nvidia@).take(j + 1) =~= pair_views(nvidia@).take(j as int).push(pair_views(nvidia@)[j as int]));
        j += 1;
    }
    assert(pair_views(nvidia@).take(j as int) =~= nv);
    assert(sy.take(0) =~= Seq::<(Seq<char>, Seq<char>)>::empty());
    let mut out: Vec<bool> = Vec::new();
    let mut i: usize = 0;
    while i < sysfs.len()
        invariant
            i <= sysfs.len(),
            nv == pair_views(nvidia@),
            sy == pair_views(sysfs@),
            pair_views(merged@) == merged_ids(nv, sy.take(i as int)),
            out.len() == i,
            forall|k: int|
                0 <= k < i ==> #[trigger] out@[k] == !clashes(merged_ids(nv, sy.take(k)), sy[k]),
        decreases sysfs.len() - i,
    {
        let d = &sysfs[i];
        let ghost m = pair_views(merged@);
        let mut clash = false;
        let mut k: usize = 0;
        while k < merged.len()
            invariant
                k <= merged.len(),
                m == pair_views(merged@),
                d == sysfs@[i as int],
                clash == exists|q: int| 0 <= q < k && (m[q].0 == d.0@ || m[q].1 == d.1@),
            decreases merged.len() - k,
        {
            assert(m[k as int] == (merged@[k as int].0@, merged@[k as int].1@));
            if merged[k].0 == d.0 || merged[k].1 == d.1 {
                clash = true;
            }
            k += 1;
        }
        assert(sy[i as int] == (d.0@, d.1@));
        assert(clash == clashes(m, sy[i as int]));
        let ghost next = sy.take(i + 1);
        assert(next.drop_last() =~= sy.take(i as int));
        assert(next.last() == sy[i as int]);
        if !clash {
            let ghost before = pair_views(merged@);
            merged.push((d.0.clone(), d.1.clone()));
            assert(pair_views(merged@) =~= before.push(sy[i as int]));
        }
        out.push(!clash);
        i += 1;
    }
    out
}

/// `s` without any `c`.
pub open spec fn without(s: Seq<char>, c: char) -> Seq<char>
    decreases s.len(),
{
    if s.len() == 0 {
        seq![]
    } else if s.last() == c {
        without(s.drop_last(), c)
    } else {
        without(s.drop_last(), c).push(s.last())
    }
}

/// `s` without every trailing `mhz`, as `trim_end_matches("mhz")` leaves it.
pub open spec fn strip_mhz(s: Seq<char>) -> Seq<char>
    decreases s.len(),
{
    if s.len() >= 3 && s.skip(s.len() - 3) == "mhz"@ {
        strip_mhz(s.take(s.len() - 3))
    } else {
        s
    }
}

/// The first line that holds a `*`.
pub open spec fn star_line(ls: Seq<Seq<char>>) -> Option<Seq<char>>
    decreases ls.len(),
{
    if ls.len() == 0 {
        None
    } else if find_len(ls[0], '*') < ls[0].len() {
        Some(ls[0])
    } else {
        star_line(ls.drop_first())
    }
}

/// The clock of the line marked with `*` in `pp_dpm_sclk`, as text: `1: 1200Mhz *`
/// gives `1200`. What follows the colon loses its `*`, its spaces at both ends, its
/// case and its `mhz` units.
pub open spec fn sclk_text_spec(raw: Seq<char>) -> Option<Seq<char>> {
    match star_line(lines(raw)) {
        Some(l) => match split_once(l, ':') {
            Some((_, v)) => Some(trim(strip_mhz(trim(without(v, '*')).map_values(|c: char| ascii_lower(c))))),
            None => None,
        },
        None => None,
    }
}

/// The clock text of the line marked with `*`, as `sclk_text_spec` reads it.
fn sclk_of_line(line: &Vec<char>) -> (out: Option<String>)
    ensures
        match out {
            Some(t) => match split_once(line@, ':') {
                Some((_, v)) => t@ == trim(strip_mhz(trim(without(v, '*')).map_values(|c: char| ascii_lower(c)))),
                None => false,
            },
            None => split_once(line@, ':') is None,
        },
{
    let (_, v) = match split_once_of(line, ':') {
        Some(parts) => parts,
        None => return None,
    };
    let mut kept: Vec<char> = Vec::new();
    let mut j: usize = 0;
    while j < v.len()
        invariant
            j <= v.len(),
            kept@ == without(v@.take(j as int), '*'),
        decreases v.len() - j,
    {
        assert(v@.take(j + 1).drop_last() =~= v@.take(j as int));
        if v[j] != '*' {
            kept.push(v[j]);
        }
        j += 1;
    }
    assert(v@.take(j as int) =~= v@);
    let t = trimmed(&kept);
    let mut low: Vec<char> = Vec::new();
    let mut j: usize = 0;
    while j < t.len()
        invariant
            j <= t.len(),
            low@ == t@.take(j as int).map_values(|c: char| ascii_lower(c)),
        decreases t.len() - j,
    {
        low.push(crate::text::lower_char(t[j]));
        assert(low@ =~= t@.take(j + 1).map_values(|c: char| ascii_lower(c)));
        j += 1;
    }
    assert(t@.take(j as int) =~= t@);
    let mut n = low.len();
    assert(low@.take(n as int) =~= low@);
    while n >= 3 && low[n - 3] == 'm' && low[n - 2] == 'h' && low[n - 1] == 'z'
        invariant
            n <= low.len(),
            strip_mhz(low@) == strip_mhz(low@.take(n as int)),
        decreases n,
    {
        proof {
            reveal_strlit("mhz");
            let s = low@.take(n as int);
            assert(s.skip(s.len() - 3) =~= "mhz"@);
            assert(s.take(s.len() - 3) =~= low@.take(n - 3));
        }
        n -= 3;
    }
    proof {
        reveal_strlit("mhz");
        let s = low@.take(n as int);
        if s.len() >= 3 {
            assert(s.skip(s.len() - 3)[0] == low@[n - 3]);
            assert(s.skip(s.len() - 3)[1] == low@[n - 2]);
            assert(s.skip(s.len() - 3)[2] == low@[n - 1]);
        }
    }
    let stripped = copy_range(&low, 0, n);
    assert(stripped@ =~= low@.take(n as int));
    let out = trimmed(&stripped);
    Some(string_of(&out))
}

pub fn sclk_text(raw: &str) -> (out: Option<String>)
    ensures
        match out {
            Some(t) => sclk_text_spec(raw@) == Some(t@),
            None => sclk_text_spec(raw@) is None,
        },
{
    let ls = lines_of(&chars_of(raw));
    let ghost all = views(ls@);
    let mut i: usize = 0;
    assert(all.skip(0) =~= all);
    while i < ls.len()
        invariant
            i <= ls.len(),
            all == views(ls@),
            all == lines(raw@),
            star_line(all) == star_line(all.skip(i as int)),
        decreases ls.len() - i,
    {
        assert(all.skip(i as int)[0] == ls@[i as int]@);
        assert(all.skip(i as int).drop_first() =~= all.skip(i + 1));
        let k = find_from(&ls[i], 0, '*');
        assert(ls@[i as int]@.skip(0) =~= ls@[i as int]@);
        if k < ls[i].len() {
            return sclk_of_line(&ls[i]);
        }
        i += 1;
    }
    None
}

} // verus!
