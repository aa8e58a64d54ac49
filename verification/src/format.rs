//! Text for the panels: the uptime, as `uptime -p` writes it, in Spanish.

use vstd::prelude::*;

use crate::text::{decimal, join, join_of, push_decimal, push_str, string_of, views};

verus! {

broadcast use vstd::string::group_string_axioms;

/// `n` followed by the unit, singular for one and plural otherwise.
pub open spec fn unit_part(n: nat, one: Seq<char>, many: Seq<char>) -> Seq<char> {
    decimal(n) + " "@ + if n == 1 {
        one
    } else {
        many
    }
}

/// The part of `n` of a unit, or nothing when `n` is zero.
pub open spec fn part_if(n: nat, one: Seq<char>, many: Seq<char>) -> Seq<Seq<char>> {
    if n > 0 {
        seq![unit_part(n, one, many)]
    } else {
        seq![]
    }
}

/// The weeks, days, hours and minutes of `secs`, each only when not zero.
pub open spec fn uptime_parts(secs: nat) -> Seq<Seq<char>> {
    let weeks = secs / 604_800;
    let r1 = secs % 604_800;
    let days = r1 / 86_400;
    let r2 = r1 % 86_400;
    let hours = r2 / 3_600;
    let r3 = r2 % 3_600;
    let minutes = r3 / 60;
    part_if(weeks, "semana"@, "semanas"@) + part_if(days, "día"@, "días"@) + part_if(
        hours,
        "hora"@,
        "horas"@,
    ) + part_if(minutes, "minuto"@, "minutos"@)
}

/// What `uptime -p` shows without the "up": the units that are zero are left out.
pub open spec fn uptime_text(secs: nat) -> Seq<char> {
    if uptime_parts(secs).len() == 0 {
        "0 minutos"@
    } else {
        join(uptime_parts(secs), ", "@)
    }
}

fn push_part(parts: &mut Vec<Vec<char>>, n: u64, one: &str, many: &str)
    ensures
        views(final(parts)@) == views(old(parts)@) + part_if(n as nat, one@, many@),
{
    if n > 0 {
        let mut p: Vec<char> = Vec::new();
        push_decimal(&mut p, n);
        push_str(&mut p, " ");
        if n == 1 {
            push_str(&mut p, one);
        } else {
            push_str(&mut p, many);
        }
        let ghost before = views(parts@);
        parts.push(p);
        assert(views(parts@) =~= before + part_if(n as nat, one@, many@));
    } else {
        assert(views(parts@) =~= views(parts@) + part_if(n as nat, one@, many@));
    }
}

pub fn uptime(secs: u64) -> (out: String)
    ensures
        out@ == uptime_text(secs as nat),
{
    let mut parts: Vec<Vec<char>> = Vec::new();
    let weeks = secs / 604_800;
    let r1 = secs % 604_800;
    let days = r1 / 86_400;
    let r2 = r1 % 86_400;
    let hours = r2 / 3_600;
    let r3 = r2 % 3_600;
    let minutes = r3 / 60;
    assert(views(parts@) =~= Seq::<Seq<char>>::empty());
    push_part(&mut parts, weeks, "semana", "semanas");
    push_part(&mut parts, days, "día", "días");
    push_part(&mut parts, hours, "hora", "horas");
    push_part(&mut parts, minutes, "minuto", "minutos");
    assert(views(parts@) =~= uptime_parts(secs as nat));
    if parts.len() == 0 {
        "0 minutos".to_string()
    } else {
        string_of(&join_of(&parts, ", "))
    }
}

} // verus!
