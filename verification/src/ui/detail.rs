//! The footer of the popup offers the first system monitor that is installed: the
//! plasmoid launches `kstart plasma-systemmonitor`, and COSMIC ships no monitor of its
//! own.

use vstd::prelude::*;

verus! {

broadcast use vstd::string::group_string_axioms;

/// The monitors tried, in order of preference.
pub open spec fn candidates_spec() -> Seq<Seq<char>> {
    seq!["plasma-systemmonitor"@, "gnome-system-monitor"@, "btop"@, "htop"@]
}

pub fn candidates() -> (out: [&'static str; 4])
    ensures
        out@.map_values(|c: &str| c@) == candidates_spec(),
{
    let out = ["plasma-systemmonitor", "gnome-system-monitor", "btop", "htop"];
    assert(out@.map_values(|c: &str| c@) =~= candidates_spec());
    out
}

/// Index of the first `true` of `on_path`, or 4.
pub open spec fn first_on_path(on_path: Seq<bool>) -> int {
    if on_path[0] {
        0
    } else if on_path[1] {
        1
    } else if on_path[2] {
        2
    } else if on_path[3] {
        3
    } else {
        4
    }
}

/// The first candidate that is on the PATH; `on_path[i]` says whether candidate `i` is
/// an executable file of some directory of the PATH.
pub fn system_monitor_command(on_path: &[bool; 4]) -> (out: Option<&'static str>)
    ensures
        match out {
            Some(c) => first_on_path(on_path@) < 4 && c@ == candidates_spec()[first_on_path(
                on_path@,
            )],
            None => first_on_path(on_path@) == 4,
        },
{
    let names = candidates();
    let mut i: usize = 0;
    while i < 4
        invariant
            i <= 4,
            names@.map_values(|c: &str| c@) == candidates_spec(),
            forall|j: int| 0 <= j < i ==> !on_path@[j],
        decreases 4 - i,
    {
        if on_path[i] {
            assert(names@.map_values(|c: &str| c@)[i as int] == names@[i as int]@);
            return Some(names[i]);
        }
        i += 1;
    }
    None
}

} // verus!
