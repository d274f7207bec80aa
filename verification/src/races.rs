//! Boat races: in how many ways the record of a race can be beaten.

use crate::sums::{lemma_total_all, lemma_total_step, total};
use crate::text::{fields_of, parse_i64, signed_of, split_fields, to_chars, views};
use vstd::prelude::*;

verus! {

/// A race: how long it lasts, and the farthest anyone has gone in it.
#[derive(Debug, Clone, Copy, PartialEq, Eq, Structural)]
pub struct Race {
    pub duration: i64,
    pub record: i64,
}

impl Race {
    /// Whether holding the button for `button_time` beats the record: the
    /// boat then goes `button_time` for each moment that is left.
    pub open spec fn beats(&self, button_time: int) -> bool {
        &&& 0 <= button_time <= self.duration
        &&& button_time * (self.duration - button_time) > self.record
    }

    /// 1 for each of the hold times from 0 to `upto - 1` that beats the
    /// record.
    pub open spec fn wins(&self, upto: int) -> Seq<int> {
        Seq::new(
            if upto >= 0 {
                upto as nat
            } else {
                0
            },
            |t: int|
                if self.beats(t) {
                    1int
                } else {
                    0int
                },
        )
    }

    /// The number of hold times that beat the record.
    pub open spec fn ways(&self) -> int {
        total(self.wins(self.duration + 2))
    }

    /// Whether holding the button for `button_time` beats the record.
    pub fn is_exceeding_button_time(&self, button_time: i64) -> (b: bool)
        ensures
            b == self.beats(button_time as int),
    {
        if button_time < 0 || button_time > self.duration {
            return false;
        }
        let speed = button_time;
        let remaining_time = self.duration - button_time;
        assert(0 <= speed * remaining_time <= 0x7fff_ffff_ffff_ffff * 0x7fff_ffff_ffff_ffff)
            by (nonlinear_arith)
            requires
                0 <= speed <= 0x7fff_ffff_ffff_ffff,
                0 <= remaining_time <= 0x7fff_ffff_ffff_ffff,
        ;
        // The product may be too large for an `i64`; in an `i128` it fits.
        let distance = (speed as i128) * (remaining_time as i128);
        distance > self.record as i128
    }

    /// The number of hold times that beat the record.
    pub fn exceeding_button_times(&self) -> (counter: i64)
        requires
            self.duration < i64::MAX - 1,
        ensures
            counter == self.ways(),
    {
        let mut counter: i64 = 0;
        if self.duration < -1 {
            proof {
                assert(self.wins(self.duration + 2).len() == 0);
            }
            return 0;
        }
        let ghost wins = self.wins(self.duration + 2);
        let mut button_time: i64 = 0;
        proof {
            lemma_total_all(wins);
        }
        while button_time <= self.duration + 1
            invariant
                0 <= button_time <= self.duration + 2,
                self.duration < i64::MAX - 1,
                wins == self.wins(self.duration + 2),
                counter == total(wins.take(button_time as int)),
                0 <= counter <= button_time,
            decreases self.duration + 2 - button_time,
        {
            proof {
                lemma_total_step(wins, button_time as int);
            }
            counter += if self.is_exceeding_button_time(button_time) {
                1
            } else {
                0
            };
            button_time += 1;
        }
        proof {
            lemma_total_all(wins);
        }
        counter
    }
}

/// The first `k` of `fields` written one after the other.
pub open spec fn joined(fields: Seq<Seq<char>>, k: int) -> Seq<char>
    decreases k,
{
    if k <= 0 {
        Seq::empty()
    } else {
        joined(fields, k - 1) + fields[k - 1]
    }
}

/// The number of races that two lists of fields give: that of the shorter
/// list.
pub open spec fn race_count(times: Seq<char>, distances: Seq<char>) -> int {
    if fields_of(times).len() <= fields_of(distances).len() {
        fields_of(times).len() as int
    } else {
        fields_of(distances).len() as int
    }
}

/// What a field reads as.
pub open spec fn number_of(field: Seq<char>) -> Option<int> {
    signed_of(field, i64::MIN as int, i64::MAX as int)
}

/// The first `k` of `fields` written one after the other.
fn join_fields(fields: &Vec<Vec<char>>, k: usize) -> (text: Vec<char>)
    requires
        k <= fields@.len(),
    ensures
        text@ == joined(views(fields@), k as int),
{
    let mut text: Vec<char> = Vec::new();
    let mut i: usize = 0;
    while i < k
        invariant
            i <= k <= fields@.len(),
            text@ == joined(views(fields@), i as int),
        decreases k - i,
    {
        let field = &fields[i];
        let ghost before = text@;
        let mut j: usize = 0;
        while j < field.len()
            invariant
                j <= field@.len(),
                text@ == before + field@.take(j as int),
            decreases field@.len() - j,
        {
            text.push(field[j]);
            proof {
                assert(field@.take(j + 1) =~= field@.take(j as int).push(field@[j as int]));
                assert(text@ =~= before + field@.take(j + 1));
            }
            j += 1;
        }
        proof {
            assert(field@.take(j as int) =~= field@);
            assert(views(fields@)[i as int] == field@);
        }
        i += 1;
    }
    text
}

impl Race {
    /// Reads as many races as both lists have fields: the durations from
    /// `times`, the records from `distances`.
    pub fn parse_multiple(times: &str, distances: &str) -> (races: Vec<Race>)
        requires
            forall|i: int|
                0 <= i < race_count(times@, distances@) ==> number_of(
                    #[trigger] fields_of(times@)[i],
                ) is Some,
            forall|i: int|
                0 <= i < race_count(times@, distances@) ==> number_of(
                    #[trigger] fields_of(distances@)[i],
                ) is Some,
        ensures
            races@.len() == race_count(times@, distances@),
            forall|i: int|
                0 <= i < races@.len() ==> {
                    &&& Some((#[trigger] races@[i]).duration as int) == number_of(
                        fields_of(times@)[i],
                    )
                    &&& Some(races@[i].record as int) == number_of(fields_of(distances@)[i])
                },
    {
        let time_chars = to_chars(times);
        let distance_chars = to_chars(distances);
        let time_fields = split_fields(&time_chars);
        let distance_fields = split_fields(&distance_chars);
        let count = if time_fields.len() <= distance_fields.len() {
            time_fields.len()
        } else {
            distance_fields.len()
        };
        let mut races: Vec<Race> = Vec::new();
        let mut i: usize = 0;
        while i < count
            invariant
                i <= count,
                count == race_count(times@, distances@),
                views(time_fields@) == fields_of(times@),
                views(distance_fields@) == fields_of(distances@),
                forall|k: int|
                    0 <= k < count ==> number_of(#[trigger] fields_of(times@)[k]) is Some,
                forall|k: int|
                    0 <= k < count ==> number_of(#[trigger] fields_of(distances@)[k]) is Some,
                races@.len() == i,
                forall|k: int|
                    0 <= k < i ==> {
                        &&& Some((#[trigger] races@[k]).duration as int) == number_of(
                            fields_of(times@)[k],
                        )
                        &&& Some(races@[k].record as int) == number_of(fields_of(distances@)[k])
                    },
            decreases count - i,
        {
            proof {
                assert(views(time_fields@)[i as int] == time_fields@[i as int]@);
                assert(views(distance_fields@)[i as int] == distance_fields@[i as int]@);
                assert(number_of(fields_of(times@)[i as int]) is Some);
                assert(number_of(fields_of(distances@)[i as int]) is Some);
            }
            let duration = match parse_i64(&time_fields[i]) {
                Some(v) => v,
                None => 0,
            };
            let record = match parse_i64(&distance_fields[i]) {
                Some(v) => v,
                None => 0,
            };
            races.push(Race { duration, record });
            i += 1;
        }
        races
    }

    /// Reads one race from the fields of both lists written together: the
    /// duration from those of `times`, the record from those of
    /// `distances`, as many of each as both lists have.
    pub fn parse_single(times: &str, distances: &str) -> (race: Race)
        requires
            number_of(joined(fields_of(times@), race_count(times@, distances@))) is Some,
            number_of(joined(fields_of(distances@), race_count(times@, distances@))) is Some,
        ensures
            Some(race.duration as int) == number_of(
                joined(fields_of(times@), race_count(times@, distances@)),
            ),
            Some(race.record as int) == number_of(
                joined(fields_of(distances@), race_count(times@, distances@)),
            ),
    {
        let time_chars = to_chars(times);
        let distance_chars = to_chars(distances);
        let time_fields = split_fields(&time_chars);
        let distance_fields = split_fields(&distance_chars);
        let count = if time_fields.len() <= distance_fields.len() {
            time_fields.len()
        } else {
            distance_fields.len()
        };
        let time = join_fields(&time_fields, count);
        let distance = join_fields(&distance_fields, count);
        let duration = match parse_i64(&time) {
            Some(v) => v,
            None => 0,
        };
        let record = match parse_i64(&distance) {
            Some(v) => v,
            None => 0,
        };
        Race { duration, record }
    }
}

} // verus!
