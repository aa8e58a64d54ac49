//! The history of a metric: the last 60 samples, like `main.qml` of the plasmoid.

use vstd::prelude::*;

use std::collections::VecDeque;

use crate::text::{decimal, push_decimal, push_str, string_of};

verus! {

broadcast use vstd::string::group_string_axioms;

pub const CAPACITY: usize = 60;

/// The last `CAPACITY` values pushed, oldest first.
pub struct History<T> {
    points: VecDeque<T>,
}

/// `h` after one push of `v`: the oldest value leaves when the history is full.
pub open spec fn pushed<T>(h: Seq<T>, v: T) -> Seq<T> {
    if h.len() >= CAPACITY {
        h.drop_first().push(v)
    } else {
        h.push(v)
    }
}

/// `h` after pushing each of `vs` in turn.
pub open spec fn pushed_all<T>(h: Seq<T>, vs: Seq<T>) -> Seq<T>
    decreases vs.len(),
{
    if vs.len() == 0 {
        h
    } else {
        pushed(pushed_all(h, vs.drop_last()), vs.last())
    }
}

/// The last `CAPACITY` values of `s`.
pub open spec fn window<T>(s: Seq<T>) -> Seq<T> {
    if s.len() > CAPACITY {
        s.skip(s.len() - CAPACITY)
    } else {
        s
    }
}

impl<T> History<T> {
    #[verifier::type_invariant]
    spec fn inv(self) -> bool {
        self.points@.len() <= CAPACITY
    }

    pub closed spec fn view(self) -> Seq<T> {
        self.points@
    }

    pub fn new() -> (h: Self)
        ensures
            h.view() == Seq::<T>::empty(),
    {
        History { points: VecDeque::new() }
    }

    pub fn push(&mut self, v: T)
        ensures
            final(self).view() == pushed(old(self).view(), v),
            final(self).view().len() <= CAPACITY,
    {
        proof {
            use_type_invariant(&*self);
        }
        let mut points = VecDeque::new();
        std::mem::swap(&mut points, &mut self.points);
        if points.len() == CAPACITY {
            points.pop_front();
        }
        points.push_back(v);
        self.points = points;
    }

    pub fn len(&self) -> (n: usize)
        ensures
            n == self.view().len(),
            n <= CAPACITY,
    {
        proof {
            use_type_invariant(self);
        }
        self.points.len()
    }
}

impl<T: Copy> History<T> {
    /// The values, oldest first.
    pub fn points(&self) -> (out: Vec<T>)
        ensures
            out@ == self.view(),
    {
        let mut out: Vec<T> = Vec::new();
        let mut i: usize = 0;
        while i < self.points.len()
            invariant
                i <= self.points@.len(),
                out@ == self.points@.take(i as int),
            decreases self.points@.len() - i,
        {
            out.push(self.points[i]);
            i += 1;
            assert(out@ =~= self.points@.take(i as int));
        }
        assert(self.points@.take(i as int) =~= self.points@);
        out
    }
}

impl<T> Default for History<T> {
    fn default() -> (h: Self)
        ensures
            h.view() == Seq::<T>::empty(),
    {
        History::new()
    }
}

/// A history holds the last `CAPACITY` values pushed into it, in the order they came.
pub proof fn lemma_history_window<T>(h: Seq<T>, vs: Seq<T>)
    requires
        h.len() <= CAPACITY,
    ensures
        pushed_all(h, vs) == window(h + vs),
    decreases vs.len(),
{
    if vs.len() > 0 {
        let pre = vs.drop_last();
        lemma_history_window(h, pre);
        let w = window(h + pre);
        assert(h + vs =~= (h + pre).push(vs.last()));
        if (h + pre).len() >= CAPACITY {
            assert(w.drop_first().push(vs.last()) =~= window(h + vs));
        } else {
            assert(w.push(vs.last()) =~= window(h + vs));
        }
    } else {
        assert(h + vs =~= h);
    }
}

/// The text of the left end of the time axis, for a sampling period of `ms`.
pub open spec fn window_label_spec(ms: int) -> Seq<char> {
    let secs = (CAPACITY * ms) / 1000;
    if secs >= 60 {
        "hace "@ + decimal((secs / 60) as nat) + " min"@
    } else {
        "hace "@ + decimal(secs as nat) + " s"@
    }
}

/// The label of the left end of the axis. The plasmoid hardcodes it, and inconsistently
/// between panels, though its buffer is always 60 points; here it follows the interval.
pub fn window_label(update_interval_ms: u32) -> (out: String)
    requires
        CAPACITY * update_interval_ms <= u32::MAX,
    ensures
        out@ == window_label_spec(update_interval_ms as int),
{
    let secs = (CAPACITY as u32 * update_interval_ms) / 1000;
    let mut out: Vec<char> = Vec::new();
    push_str(&mut out, "hace ");
    if secs >= 60 {
        push_decimal(&mut out, (secs / 60) as u64);
        push_str(&mut out, " min");
    } else {
        push_decimal(&mut out, secs as u64);
        push_str(&mut out, " s");
    }
    string_of(&out)
}

} // verus!
