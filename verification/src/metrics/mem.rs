//! The fields of /proc/meminfo, found by name.

use vstd::prelude::*;

use crate::text::{chars_of, lines, lines_of, starts_with, string_of, views, words, words_of};

verus! {

broadcast use vstd::string::group_string_axioms;

/// Whether `line` is the line of field `name`: the name, then a colon.
pub open spec fn field_line(line: Seq<char>, name: Seq<char>) -> bool {
    name.is_prefix_of(line) && line.len() > name.len() && line[name.len() as int] == ':'
}

/// The value of the first line of field `name`: its second word, if it has one.
pub open spec fn field_value(ls: Seq<Seq<char>>, name: Seq<char>) -> Option<Seq<char>>
    decreases ls.len(),
{
    if ls.len() == 0 {
        None
    } else if field_line(ls[0], name) {
        if words(ls[0]).len() >= 2 {
            Some(words(ls[0])[1])
        } else {
            None
        }
    } else {
        field_value(ls.drop_first(), name)
    }
}

/// The text of the value of field `name` of /proc/meminfo (`MemTotal` and the like), in
/// kB. The line must hold the name followed by a colon, so `Cached` does not take the
/// line of `SwapCached`.
pub fn meminfo_field(raw: &str, name: &str) -> (out: Option<String>)
    ensures
        match out {
            Some(v) => field_value(lines(raw@), name@) == Some(v@),
            None => field_value(lines(raw@), name@) is None,
        },
{
    let ls = lines_of(&chars_of(raw));
    let n = chars_of(name);
    let ghost all = views(ls@);
    let mut i: usize = 0;
    assert(all.skip(0) =~= all);
    while i < ls.len()
        invariant
            i <= ls.len(),
            all == views(ls@),
            all == lines(raw@),
            n@ == name@,
            field_value(all, name@) == field_value(all.skip(i as int), name@),
        decreases ls.len() - i,
    {
        let ghost rest = all.skip(i as int);
        assert(rest[0] == ls@[i as int]@);
        assert(rest.drop_first() =~= all.skip(i + 1));
        let line = &ls[i];
        if starts_with(line, &n) && line.len() > n.len() && line[n.len()] == ':' {
            let w = words_of(line);
            if w.len() >= 2 {
                assert(views(w@)[1] == w@[1]@);
                return Some(string_of(&w[1]));
            }
            return None;
        }
        i += 1;
    }
    assert(all.skip(i as int) =~= Seq::<Seq<char>>::empty());
    None
}

} // verus!
