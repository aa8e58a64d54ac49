//! What the views decide that is not geometry: the colors they read and the system
//! monitor they offer.

pub mod detail;

use vstd::prelude::*;

use crate::text::{chars_of, parse_radix, parse_unsigned};

verus! {

broadcast use vstd::string::group_string_axioms;

/// `s` without every leading `#`, as `trim_start_matches('#')` leaves it.
pub open spec fn strip_hashes(s: Seq<char>) -> Seq<char>
    decreases s.len(),
{
    if s.len() > 0 && s[0] == '#' {
        strip_hashes(s.drop_first())
    } else {
        s
    }
}

/// The value of a `#rrggbb` color as a hexadecimal `u32`; white (`0x00ffffff`) when it
/// does not read.
pub open spec fn hex_value(hex: Seq<char>) -> int {
    match parse_unsigned(strip_hashes(hex), 16, u32::MAX as int) {
        Some(v) => v,
        None => 0x00ff_ffff,
    }
}

/// The red, green and blue bytes of a `#rrggbb` color, with which the views paint text
/// in the threshold colors: bits 16 to 23, 8 to 15 and 0 to 7 of its value.
pub fn hex_rgb(hex: &str) -> (out: (u8, u8, u8))
    ensures
        out.0 == (hex_value(hex@) / 0x1_0000) % 0x100,
        out.1 == (hex_value(hex@) / 0x100) % 0x100,
        out.2 == hex_value(hex@) % 0x100,
{
    let s = chars_of(hex);
    let mut i: usize = 0;
    assert(s@.skip(0) =~= hex@);
    while i < s.len() && s[i] == '#'
        invariant
            i <= s.len(),
            strip_hashes(s@.skip(i as int)) == strip_hashes(hex@),
        decreases s.len() - i,
    {
        assert(s@.skip(i as int).drop_first() =~= s@.skip(i + 1));
        i += 1;
    }
    let rest = crate::text::copy_range(&s, i, s.len());
    assert(rest@ =~= s@.skip(i as int));
    let v: u32 = match parse_radix(&rest, 16, u32::MAX as u64) {
        Some(v) => v as u32,
        None => 0x00ff_ffff,
    };
    ((v / 0x1_0000 % 0x100) as u8, (v / 0x100 % 0x100) as u8, (v % 0x100) as u8)
}

} // verus!
