//! Calibration values: the first and the last digit of each line of a
//! document, read as a number of two digits.

use crate::sums::{lemma_total_all, lemma_total_grows, lemma_total_step, total};
use crate::text::{
    digit, digit_to_u64, digit_value, is_digit, lines_of, split_lines, to_chars, views,
};
use vstd::prelude::*;

verus! {

/// The values of the decimal digits among `s`, in order.
pub open spec fn digits_in(s: Seq<char>) -> Seq<u32>
    decreases s.len(),
{
    if s.len() == 0 {
        Seq::empty()
    } else if is_digit(s.last()) {
        digits_in(s.drop_last()).push(digit_value(s.last()) as u32)
    } else {
        digits_in(s.drop_last())
    }
}

/// The number of two digits made of the first and the last of `digits`.
pub open spec fn two_digits(digits: Seq<u32>) -> Option<u32> {
    if digits.len() == 0 {
        None
    } else {
        Some((digits.first() * 10 + digits.last()) as u32)
    }
}

/// The calibration value of a line: the number made of its first and its
/// last digit.
pub open spec fn line_value(line: Seq<char>) -> Option<u32> {
    two_digits(digits_in(line))
}

/// Every digit found in a text is below ten.
pub proof fn lemma_digits_small(s: Seq<char>)
    ensures
        forall|i: int| 0 <= i < digits_in(s).len() ==> #[trigger] digits_in(s)[i] <= 9,
    decreases s.len(),
{
    if s.len() > 0 {
        lemma_digits_small(s.drop_last());
        let before = digits_in(s.drop_last());
        assert forall|i: int| 0 <= i < digits_in(s).len() implies #[trigger] digits_in(s)[i]
            <= 9 by {
            if i < before.len() {
                assert(digits_in(s)[i] == before[i]);
            }
        }
    }
}

/// The values of the decimal digits among `chars`, in order.
pub fn filter_digits_of(chars: &Vec<char>) -> (digits: Vec<u32>)
    ensures
        digits@ == digits_in(chars@),
{
    let mut digits: Vec<u32> = Vec::new();
    let mut i: usize = 0;
    while i < chars.len()
        invariant
            i <= chars@.len(),
            digits@ == digits_in(chars@.take(i as int)),
        decreases chars@.len() - i,
    {
        proof {
            assert(chars@.take(i + 1).drop_last() =~= chars@.take(i as int));
        }
        let c = chars[i];
        if digit(c) {
            digits.push(digit_to_u64(c) as u32);
        }
        i += 1;
    }
    proof {
        assert(chars@.take(i as int) =~= chars@);
    }
    digits
}

/// The values of the decimal digits in `s`, in order.
pub fn filter_digits(s: &str) -> (digits: Vec<u32>)
    ensures
        digits@ == digits_in(s@),
{
    let chars = to_chars(s);
    filter_digits_of(&chars)
}

/// The calibration value of the line `chars`, if it holds a digit.
pub fn line_value_of(chars: &Vec<char>) -> (value: Option<u32>)
    ensures
        value == line_value(chars@),
        value is Some ==> value.unwrap() <= 99,
{
    let digits = filter_digits_of(chars);
    proof {
        lemma_digits_small(chars@);
    }
    if digits.len() == 0 {
        return None;
    }
    let first = digits[0];
    let last = digits[digits.len() - 1];
    Some(first * 10 + last)
}

/// The calibration value of `line`, if it holds a digit.
pub fn calc_calibration_line(line: &str) -> (value: Option<u32>)
    ensures
        value == line_value(line@),
{
    let chars = to_chars(line);
    line_value_of(&chars)
}

/// What a line counts for in a document: its calibration value, or 0 where
/// it has none.
pub open spec fn counted(value: Option<u32>) -> int {
    match value {
        Some(v) => v as int,
        None => 0,
    }
}

/// The sum of the calibration values of the lines of `s`.
pub open spec fn document_value(s: Seq<char>) -> int {
    total(lines_of(s).map_values(|line: Seq<char>| counted(line_value(line))))
}

/// The sum of the calibration values of the lines of `s`.
pub fn calc_calibration_document(s: &str) -> (sum: u32)
    requires
        document_value(s@) <= u32::MAX,
    ensures
        sum == document_value(s@),
{
    let chars = to_chars(s);
    let lines = split_lines(&chars);
    let ghost values = lines_of(s@).map_values(|line: Seq<char>| counted(line_value(line)));
    let mut sum: u32 = 0;
    let mut i: usize = 0;
    proof {
        lemma_total_all(values);
        assert forall|j: int| 0 <= j < values.len() implies 0 <= #[trigger] values[j] by {
        }
    }
    while i < lines.len()
        invariant
            i <= lines@.len(),
            views(lines@) == lines_of(s@),
            values == lines_of(s@).map_values(|line: Seq<char>| counted(line_value(line))),
            forall|j: int| 0 <= j < values.len() ==> 0 <= #[trigger] values[j],
            total(values) <= u32::MAX,
            sum == total(values.take(i as int)),
        decreases lines@.len() - i,
    {
        proof {
            lemma_total_step(values, i as int);
            lemma_total_grows(values, i + 1);
            assert(views(lines@)[i as int] == lines@[i as int]@);
        }
        let value = line_value_of(&lines[i]);
        sum += match value {
            Some(v) => v,
            None => 0,
        };
        i += 1;
    }
    sum
}

/// The names of the digits from one to nine.
pub open spec fn names() -> Seq<Seq<char>> {
    seq![
        seq!['o', 'n', 'e'],
        seq!['t', 'w', 'o'],
        seq!['t', 'h', 'r', 'e', 'e'],
        seq!['f', 'o', 'u', 'r'],
        seq!['f', 'i', 'v', 'e'],
        seq!['s', 'i', 'x'],
        seq!['s', 'e', 'v', 'e', 'n'],
        seq!['e', 'i', 'g', 'h', 't'],
        seq!['n', 'i', 'n', 'e'],
    ]
}

/// Whether `word` stands in `s` at place `i`.
pub open spec fn stands_at(s: Seq<char>, i: int, word: Seq<char>) -> bool {
    &&& 0 <= i
    &&& i + word.len() <= s.len()
    &&& s.subrange(i, i + word.len()) == word
}

/// The digit whose name stands in `s` at place `i`, looking at the names
/// from number `k` on; 0 where none does.
pub open spec fn named_at(s: Seq<char>, i: int, k: int) -> int
    decreases 9 - k,
{
    if k < 0 || k >= 9 {
        0
    } else if stands_at(s, i, names()[k]) {
        k + 1
    } else {
        named_at(s, i, k + 1)
    }
}

/// The digit from 1 to 9 that stands in `s` at place `i`, as a figure or
/// by its name; 0 where none does.
pub open spec fn digit_at(s: Seq<char>, i: int) -> int {
    if 0 <= i < s.len() && is_digit(s[i]) && s[i] != '0' {
        digit_value(s[i])
    } else {
        named_at(s, i, 0)
    }
}

/// The calibration value of a line in which digits may be spelled out: the
/// number made of the first and of the last digit that stands in it.
pub open spec fn spelled_value(s: Seq<char>) -> Option<u32> {
    if exists|i: int| 0 <= i < s.len() && #[trigger] digit_at(s, i) != 0 {
        let first = choose|i: int|
            0 <= i < s.len() && #[trigger] digit_at(s, i) != 0 && forall|j: int|
                0 <= j < i ==> #[trigger] digit_at(s, j) == 0;
        let last = choose|i: int|
            0 <= i < s.len() && #[trigger] digit_at(s, i) != 0 && forall|j: int|
                i < j < s.len() ==> #[trigger] digit_at(s, j) == 0;
        Some((digit_at(s, first) * 10 + digit_at(s, last)) as u32)
    } else {
        None
    }
}

/// The names of the digits from one to nine.
fn digit_names() -> (words: Vec<Vec<char>>)
    ensures
        words@.len() == 9,
        forall|k: int| 0 <= k < 9 ==> (#[trigger] words@[k])@ == names()[k],
{
    let mut words: Vec<Vec<char>> = Vec::new();
    words.push(vec!['o', 'n', 'e']);
    words.push(vec!['t', 'w', 'o']);
    words.push(vec!['t', 'h', 'r', 'e', 'e']);
    words.push(vec!['f', 'o', 'u', 'r']);
    words.push(vec!['f', 'i', 'v', 'e']);
    words.push(vec!['s', 'i', 'x']);
    words.push(vec!['s', 'e', 'v', 'e', 'n']);
    words.push(vec!['e', 'i', 'g', 'h', 't']);
    words.push(vec!['n', 'i', 'n', 'e']);
    proof {
        assert(words@[0]@ =~= names()[0]);
        assert(words@[1]@ =~= names()[1]);
        assert(words@[2]@ =~= names()[2]);
        assert(words@[3]@ =~= names()[3]);
        assert(words@[4]@ =~= names()[4]);
        assert(words@[5]@ =~= names()[5]);
        assert(words@[6]@ =~= names()[6]);
        assert(words@[7]@ =~= names()[7]);
        assert(words@[8]@ =~= names()[8]);
    }
    words
}

/// Whether `word` stands in `chars` at place `i`.
fn word_at(chars: &Vec<char>, i: usize, word: &Vec<char>) -> (b: bool)
    requires
        i <= chars@.len(),
    ensures
        b == stands_at(chars@, i as int, word@),
{
    let n = word.len();
    if n > chars.len() - i {
        return false;
    }
    assert(chars@.len() <= usize::MAX);
    let mut k: usize = 0;
    while k < n
        invariant
            k <= n,
            n == word@.len(),
            i + n <= chars@.len(),
            chars@.len() <= usize::MAX,
            forall|t: int| 0 <= t < k ==> chars@[i + t] == word@[t],
        decreases n - k,
    {
        if chars[i + k] != word[k] {
            proof {
                assert(chars@.subrange(i as int, i + n)[k as int] == chars@[i + k]);
            }
            return false;
        }
        k += 1;
    }
    proof {
        assert(chars@.subrange(i as int, i + n) =~= word@);
    }
    true
}

/// The digit from 1 to 9 that stands in `chars` at place `i`, as a figure
/// or by its name; 0 where none does.
fn digit_here(chars: &Vec<char>, i: usize, words: &Vec<Vec<char>>) -> (v: u32)
    requires
        i < chars@.len(),
        words@.len() == 9,
        forall|k: int| 0 <= k < 9 ==> (#[trigger] words@[k])@ == names()[k],
    ensures
        v == digit_at(chars@, i as int),
        v <= 9,
{
    let c = chars[i];
    if digit(c) && c != '0' {
        return digit_to_u64(c) as u32;
    }
    let mut k: usize = 0;
    while k < 9
        invariant
            k <= 9,
            i < chars@.len(),
            words@.len() == 9,
            forall|t: int| 0 <= t < 9 ==> (#[trigger] words@[t])@ == names()[t],
            named_at(chars@, i as int, 0) == named_at(chars@, i as int, k as int),
        decreases 9 - k,
    {
        if word_at(chars, i, &words[k]) {
            return (k + 1) as u32;
        }
        k += 1;
    }
    0
}

/// The calibration value of the line `chars` in which digits may be
/// spelled out.
pub fn spelled_value_of(chars: &Vec<char>) -> (value: Option<u32>)
    ensures
        value == spelled_value(chars@),
        value is Some ==> value.unwrap() <= 99,
{
    let words = digit_names();
    let n = chars.len();
    let mut first: u32 = 0;
    let mut last: u32 = 0;
    let ghost mut first_at: int = 0;
    let ghost mut last_at: int = 0;
    let mut i: usize = 0;
    while i < n
        invariant
            i <= n,
            n == chars@.len(),
            words@.len() == 9,
            forall|k: int| 0 <= k < 9 ==> (#[trigger] words@[k])@ == names()[k],
            first <= 9,
            last <= 9,
            first == 0 <==> last == 0,
            first == 0 ==> forall|j: int| 0 <= j < i ==> #[trigger] digit_at(chars@, j) == 0,
            first != 0 ==> {
                &&& 0 <= first_at <= last_at < i
                &&& first == digit_at(chars@, first_at)
                &&& last == digit_at(chars@, last_at)
                &&& forall|j: int| 0 <= j < first_at ==> #[trigger] digit_at(chars@, j) == 0
                &&& forall|j: int| last_at < j < i ==> #[trigger] digit_at(chars@, j) == 0
            },
        decreases n - i,
    {
        let v = digit_here(chars, i, &words);
        if v != 0 {
            if first == 0 {
                first = v;
                proof {
                    first_at = i as int;
                }
            }
            last = v;
            proof {
                last_at = i as int;
            }
        }
        i += 1;
    }
    if first == 0 {
        return None;
    }
    proof {
        let s = chars@;
        assert(digit_at(s, first_at) != 0);
        let f = choose|i: int|
            0 <= i < s.len() && #[trigger] digit_at(s, i) != 0 && forall|j: int|
                0 <= j < i ==> #[trigger] digit_at(s, j) == 0;
        let l = choose|i: int|
            0 <= i < s.len() && #[trigger] digit_at(s, i) != 0 && forall|j: int|
                i < j < s.len() ==> #[trigger] digit_at(s, j) == 0;
        assert(f == first_at) by {
            if f < first_at {
                assert(digit_at(s, f) == 0);
            }
            if first_at < f {
                assert(digit_at(s, first_at) == 0);
            }
        }
        assert(l == last_at) by {
            if l < last_at {
                assert(digit_at(s, last_at) == 0);
            }
            if last_at < l {
                assert(digit_at(s, l) == 0);
            }
        }
    }
    Some(first * 10 + last)
}

/// The calibration value of `line` in which digits may be spelled out.
pub fn calc_calibration_line_v2(line: &str) -> (value: Option<u32>)
    ensures
        value == spelled_value(line@),
{
    let chars = to_chars(line);
    spelled_value_of(&chars)
}

/// The sum of the calibration values of the lines of `s`, in which digits
/// may be spelled out.
pub open spec fn spelled_document_value(s: Seq<char>) -> int {
    total(lines_of(s).map_values(|line: Seq<char>| counted(spelled_value(line))))
}

/// The sum of the calibration values of the lines of `s`, in which digits
/// may be spelled out.
pub fn calc_calibration_document_v2(s: &str) -> (sum: u32)
    requires
        spelled_document_value(s@) <= u32::MAX,
    ensures
        sum == spelled_document_value(s@),
{
    let chars = to_chars(s);
    let lines = split_lines(&chars);
    let ghost values = lines_of(s@).map_values(|line: Seq<char>| counted(spelled_value(line)));
    let mut sum: u32 = 0;
    let mut i: usize = 0;
    proof {
        lemma_total_all(values);
        assert forall|j: int| 0 <= j < values.len() implies 0 <= #[trigger] values[j] by {
        }
    }
    while i < lines.len()
        invariant
            i <= lines@.len(),
            views(lines@) == lines_of(s@),
            values == lines_of(s@).map_values(|line: Seq<char>| counted(spelled_value(line))),
            forall|j: int| 0 <= j < values.len() ==> 0 <= #[trigger] values[j],
            total(values) <= u32::MAX,
            sum == total(values.take(i as int)),
        decreases lines@.len() - i,
    {
        proof {
            lemma_total_step(values, i as int);
            lemma_total_grows(values, i + 1);
            assert(views(lines@)[i as int] == lines@[i as int]@);
        }
        let value = spelled_value_of(&lines[i]);
        sum += match value {
            Some(v) => v,
            None => 0,
        };
        i += 1;
    }
    sum
}

} // verus!
