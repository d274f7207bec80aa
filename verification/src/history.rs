//! Histories of readings, and the readings that come before and after them
//! when the differences of the differences are followed down to zero.

use crate::text::{
    all_signed, fields_of, parse_all_i32, signed_values, split_fields, to_chars,
};
use vstd::prelude::*;

verus! {

/// A history of readings.
#[derive(Debug, Clone)]
pub struct History {
    pub values: Vec<i32>,
}

/// The readings as integers.
pub open spec fn readings(values: Seq<i32>) -> Seq<int> {
    values.map_values(|v: i32| v as int)
}

/// The steps from each reading to the next.
pub open spec fn steps(s: Seq<int>) -> Seq<int> {
    Seq::new(
        if s.len() > 0 {
            (s.len() - 1) as nat
        } else {
            0
        },
        |i: int| s[i + 1] - s[i],
    )
}

/// Whether every reading is 0.
pub open spec fn all_zero(s: Seq<int>) -> bool {
    forall|i: int| 0 <= i < s.len() ==> #[trigger] s[i] == 0
}

/// Whether following the steps of the steps of `s` leads to readings that
/// are all 0 while there still are readings.
pub open spec fn settles(s: Seq<int>) -> bool
    decreases s.len(),
{
    s.len() > 0 && (all_zero(s) || settles(steps(s)))
}

/// The reading that follows `s`: 0 after zeros, else the last reading and
/// the step that follows the steps.
pub open spec fn following(s: Seq<int>) -> int
    decreases s.len(),
{
    if s.len() == 0 || all_zero(s) {
        0
    } else {
        s.last() + following(steps(s))
    }
}

/// The reading that precedes `s`: 0 before zeros, else the first reading
/// less the step that precedes the steps.
pub open spec fn preceding(s: Seq<int>) -> int
    decreases s.len(),
{
    if s.len() == 0 || all_zero(s) {
        0
    } else {
        s.first() - preceding(steps(s))
    }
}

/// Whether all the numbers met on the way to `following(s)` and
/// `preceding(s)` are 32-bit numbers.
pub open spec fn tame(s: Seq<int>) -> bool
    decreases s.len(),
{
    &&& forall|i: int| 0 <= i < s.len() ==> i32::MIN <= #[trigger] s[i] <= i32::MAX
    &&& s.len() == 0 || all_zero(s) || {
        &&& tame(steps(s))
        &&& i32::MIN <= following(s) <= i32::MAX
        &&& i32::MIN <= preceding(s) <= i32::MAX
    }
}

impl History {
    /// The steps from each reading to the next.
    pub fn differences(&self) -> (d: History)
        requires
            forall|i: int|
                0 <= i < steps(readings(self.values@)).len() ==> i32::MIN <= #[trigger] steps(
                    readings(self.values@),
                )[i] <= i32::MAX,
        ensures
            readings(d.values@) == steps(readings(self.values@)),
    {
        let mut values: Vec<i32> = Vec::new();
        let n = self.values.len();
        let ghost wanted = steps(readings(self.values@));
        let mut i: usize = 0;
        while i + 1 < n
            invariant
                n == self.values@.len(),
                wanted == steps(readings(self.values@)),
                forall|j: int| 0 <= j < wanted.len() ==> i32::MIN <= #[trigger] wanted[j] <= i32::MAX,
                i <= n,
                values@.len() == i,
                i <= wanted.len(),
                forall|j: int| 0 <= j < i ==> #[trigger] values@[j] == wanted[j],
            decreases n - i,
        {
            proof {
                assert(wanted[i as int] == self.values@[i + 1] - self.values@[i as int]);
            }
            values.push(self.values[i + 1] - self.values[i]);
            i += 1;
        }
        proof {
            assert(readings(values@) =~= wanted);
        }
        History { values }
    }

    /// Whether every reading is 0.
    pub fn is_zero(&self) -> (b: bool)
        ensures
            b == all_zero(readings(self.values@)),
    {
        let mut i: usize = 0;
        while i < self.values.len()
            invariant
                i <= self.values@.len(),
                forall|j: int| 0 <= j < i ==> #[trigger] readings(self.values@)[j] == 0,
            decreases self.values@.len() - i,
        {
            if self.values[i] != 0 {
                assert(readings(self.values@)[i as int] != 0);
                return false;
            }
            i += 1;
        }
        true
    }

    /// The reading that precedes the history and the one that follows it.
    pub fn predict(&self) -> (r: (i32, i32))
        requires
            settles(readings(self.values@)),
            tame(readings(self.values@)),
        ensures
            r.0 == preceding(readings(self.values@)),
            r.1 == following(readings(self.values@)),
        decreases self.values@.len(),
    {
        if self.is_zero() {
            return (0, 0);
        }
        let ghost s = readings(self.values@);
        proof {
            assert forall|i: int| 0 <= i < steps(s).len() implies i32::MIN <= #[trigger] steps(
                s,
            )[i] <= i32::MAX by {
                assert(tame(steps(s)));
            }
        }
        let below = self.differences();
        let (prev, next) = below.predict();
        let first = self.values[0];
        let last = self.values[self.values.len() - 1];
        proof {
            assert(s.first() == first);
            assert(s.last() == last);
        }
        (first - prev, last + next)
    }
}

impl History {
    /// Reads a history from numbers separated by white space.
    pub fn parse(s: &str) -> (h: History)
        requires
            all_signed(fields_of(s@), i32::MIN as int, i32::MAX as int),
        ensures
            readings(h.values@) == signed_values(fields_of(s@), i32::MIN as int, i32::MAX as int),
    {
        let chars = to_chars(s);
        let fields = split_fields(&chars);
        match parse_all_i32(&fields) {
            Some(values) => {
                proof {
                    assert(readings(values@) =~= values@.map_values(|x: i32| x as int));
                }
                History { values }
            },
            None => History { values: Vec::new() },
        }
    }
}

} // verus!
