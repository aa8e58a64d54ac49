//! Temperatures come from /sys/class/hwmon, whose entries are numbered.

use vstd::prelude::*;

use crate::text::{
    chars_of, decimal, parse_u32, parse_unsigned, push_decimal, push_str, string_of, strip_prefix,
    strip_prefix_of, strip_suffix, strip_suffix_of,
};

verus! {

broadcast use vstd::string::group_string_axioms;

/// The number between `prefix` and `suffix` in `name`: (`hwmon12`, "hwmon", "") is 12.
pub open spec fn index_between_spec(name: Seq<char>, prefix: Seq<char>, suffix: Seq<char>) -> Option<int> {
    match strip_prefix(name, prefix) {
        Some(rest) => match strip_suffix(rest, suffix) {
            Some(mid) => parse_unsigned(mid, 10, u32::MAX as int),
            None => None,
        },
        None => None,
    }
}

pub fn index_between(name: &str, prefix: &str, suffix: &str) -> (out: Option<u32>)
    ensures
        match out {
            Some(n) => index_between_spec(name@, prefix@, suffix@) == Some(n as int),
            None => index_between_spec(name@, prefix@, suffix@) is None,
        },
{
    let rest = match strip_prefix_of(&chars_of(name), &chars_of(prefix)) {
        Some(r) => r,
        None => return None,
    };
    let mid = match strip_suffix_of(&rest, &chars_of(suffix)) {
        Some(m) => m,
        None => return None,
    };
    parse_u32(&mid)
}


/// The label of a reading: `chip/sensor`, like the plasmoid's `parseSensors`. The chip
/// is `hwmon` when it has no name, and the sensor is `temp<i>` when it has no label or
/// an empty one.
pub open spec fn sensor_label_spec(chip: Option<Seq<char>>, label: Option<Seq<char>>, index: int) -> Seq<char> {
    let c = match chip {
        Some(c) => c,
        None => "hwmon"@,
    };
    let s = match label {
        Some(l) => if l.len() > 0 {
            l
        } else {
            "temp"@ + decimal(index as nat)
        },
        None => "temp"@ + decimal(index as nat),
    };
    c + "/"@ + s
}

pub fn sensor_label(chip: Option<&str>, label: Option<&str>, index: u32) -> (out: String)
    ensures
        out@ == sensor_label_spec(
            match chip {
                Some(c) => Some(c@),
                None => None::<Seq<char>>,
            },
            match label {
                Some(l) => Some(l@),
                None => None::<Seq<char>>,
            },
            index as int,
        ),
{
    let mut out: Vec<char> = Vec::new();
    match chip {
        Some(c) => push_str(&mut out, c),
        None => push_str(&mut out, "hwmon"),
    }
    push_str(&mut out, "/");
    let named = match label {
        Some(l) => !l.is_empty(),
        None => false,
    };
    if named {
        push_str(&mut out, label.unwrap());
    } else {
        push_str(&mut out, "temp");
        push_decimal(&mut out, index as u64);
    }
    string_of(&out)
}

} // verus!
