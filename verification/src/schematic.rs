//! An engine schematic: the numbers next to a symbol, and the gears, which
//! are stars next to exactly two numbers.

use crate::text::{
    all_digits, decimal_value, digit, digit_to_u64, is_digit, lemma_decimal_prefix, lines_of,
    split_lines, to_chars, views,
};
use vstd::prelude::*;

verus! {

/// A number of the schematic: its value, its line, and the places of its
/// first and of its last digit in that line.
#[derive(Clone, Copy, Debug, PartialEq, Eq, Structural)]
pub struct GridNumber {
    pub number: u32,
    pub l: u32,
    pub x: u32,
    pub y: u32,
    pub marked: bool,
}

/// A symbol of the schematic: its line, its place in the line, and whether
/// it is a star.
#[derive(Clone, Copy, Debug, PartialEq, Eq, Structural)]
pub struct Symbol {
    pub line: u32,
    pub column: u32,
    pub star: bool,
}

/// Whether `c` is a symbol: neither a digit nor a dot.
pub open spec fn is_symbol(c: char) -> bool {
    !is_digit(c) && c != '.'
}

/// Whether a number begins at place `i` of `row`.
pub open spec fn begins_number(row: Seq<char>, i: int) -> bool {
    0 <= i < row.len() && is_digit(row[i]) && (i == 0 || !is_digit(row[i - 1]))
}

/// The place behind the digits that begin at place `i` of `row`.
pub open spec fn digits_end(row: Seq<char>, i: int) -> int
    decreases row.len() - i,
{
    if 0 <= i < row.len() && is_digit(row[i]) {
        digits_end(row, i + 1)
    } else {
        i
    }
}

/// The number that begins at place `i` of line `line`.
pub open spec fn number_at(row: Seq<char>, line: int, i: int) -> GridNumber {
    GridNumber {
        number: decimal_value(row.subrange(i, digits_end(row, i))) as u32,
        l: line as u32,
        x: i as u32,
        y: (digits_end(row, i) - 1) as u32,
        marked: false,
    }
}

/// The numbers that begin among the first `upto` places of line `line`.
pub open spec fn row_numbers(row: Seq<char>, line: int, upto: int) -> Seq<GridNumber>
    decreases upto,
{
    if upto <= 0 {
        Seq::empty()
    } else if begins_number(row, upto - 1) {
        row_numbers(row, line, upto - 1).push(number_at(row, line, upto - 1))
    } else {
        row_numbers(row, line, upto - 1)
    }
}

/// The numbers of the first `upto` lines.
pub open spec fn numbers_of(rows: Seq<Seq<char>>, upto: int) -> Seq<GridNumber>
    decreases upto,
{
    if upto <= 0 {
        Seq::empty()
    } else {
        numbers_of(rows, upto - 1) + row_numbers(rows[upto - 1], upto - 1, rows[upto - 1].len() as int)
    }
}

/// The symbols among the first `upto` places of line `line`.
pub open spec fn row_symbols(row: Seq<char>, line: int, upto: int) -> Seq<Symbol>
    decreases upto,
{
    if upto <= 0 {
        Seq::empty()
    } else if is_symbol(row[upto - 1]) {
        row_symbols(row, line, upto - 1).push(
            Symbol { line: line as u32, column: (upto - 1) as u32, star: row[upto - 1] == '*' },
        )
    } else {
        row_symbols(row, line, upto - 1)
    }
}

/// The symbols of the first `upto` lines.
pub open spec fn symbols_of(rows: Seq<Seq<char>>, upto: int) -> Seq<Symbol>
    decreases upto,
{
    if upto <= 0 {
        Seq::empty()
    } else {
        symbols_of(rows, upto - 1) + row_symbols(rows[upto - 1], upto - 1, rows[upto - 1].len() as int)
    }
}

/// Whether the schematic can be read: no more lines and no longer lines
/// than a 32-bit number counts, and no number too large for one.
pub open spec fn readable(rows: Seq<Seq<char>>) -> bool {
    &&& rows.len() <= u32::MAX
    &&& forall|r: int| 0 <= r < rows.len() ==> (#[trigger] rows[r]).len() <= u32::MAX
    &&& forall|r: int, i: int|
        0 <= r < rows.len() && begins_number(rows[r], i) ==> decimal_value(
            #[trigger] rows[r].subrange(i, digits_end(rows[r], i)),
        ) <= u32::MAX
}

/// Whether the symbol touches the number: it is on the same line or on
/// the next, and no further left or right than one place beside the number.
pub open spec fn touches(s: Symbol, n: GridNumber) -> bool {
    &&& n.l - 1 <= s.line <= n.l + 1
    &&& n.x - 1 <= s.column <= n.y + 1
}

/// Whether one of the symbols touches the number.
pub open spec fn is_part(symbols: Seq<Symbol>, n: GridNumber) -> bool {
    exists|i: int| 0 <= i < symbols.len() && touches(#[trigger] symbols[i], n)
}

/// The sum of the first `k` numbers that a symbol touches.
pub open spec fn part_total(numbers: Seq<GridNumber>, symbols: Seq<Symbol>, k: int) -> int
    decreases k,
{
    if k <= 0 {
        0
    } else {
        part_total(numbers, symbols, k - 1) + if is_part(symbols, numbers[k - 1]) {
            numbers[k - 1].number as int
        } else {
            0
        }
    }
}

/// How many of the first `k` numbers the symbol touches.
pub open spec fn touch_count(numbers: Seq<GridNumber>, s: Symbol, k: int) -> int
    decreases k,
{
    if k <= 0 {
        0
    } else {
        touch_count(numbers, s, k - 1) + if touches(s, numbers[k - 1]) {
            1int
        } else {
            0int
        }
    }
}

/// The product of those of the first `k` numbers that the symbol touches.
pub open spec fn touch_product(numbers: Seq<GridNumber>, s: Symbol, k: int) -> int
    decreases k,
{
    if k <= 0 {
        1
    } else {
        touch_product(numbers, s, k - 1) * if touches(s, numbers[k - 1]) {
            numbers[k - 1].number as int
        } else {
            1
        }
    }
}

/// The gear ratio of the symbol: the product of the numbers it touches if
/// it is a star that touches exactly two, else 0.
pub open spec fn gear_ratio(numbers: Seq<GridNumber>, s: Symbol) -> int {
    if s.star && touch_count(numbers, s, numbers.len() as int) == 2 {
        touch_product(numbers, s, numbers.len() as int)
    } else {
        0
    }
}

/// The sum of the gear ratios of the first `k` symbols.
pub open spec fn gear_total(numbers: Seq<GridNumber>, symbols: Seq<Symbol>, k: int) -> int
    decreases k,
{
    if k <= 0 {
        0
    } else {
        gear_total(numbers, symbols, k - 1) + gear_ratio(numbers, symbols[k - 1])
    }
}

/// Digits that begin at a place end behind it, and are all digits.
pub proof fn lemma_digits_end(row: Seq<char>, i: int)
    requires
        0 <= i <= row.len(),
    ensures
        i <= digits_end(row, i) <= row.len(),
        all_digits(row.subrange(i, digits_end(row, i))),
        digits_end(row, i) < row.len() ==> !is_digit(row[digits_end(row, i)]),
        0 <= i < row.len() && is_digit(row[i]) ==> digits_end(row, i) > i,
    decreases row.len() - i,
{
    if i < row.len() && is_digit(row[i]) {
        lemma_digits_end(row, i + 1);
        let e = digits_end(row, i);
        assert forall|j: int| 0 <= j < e - i implies is_digit(#[trigger] row.subrange(i, e)[j]) by {
            if j > 0 {
                assert(row.subrange(i + 1, e)[j - 1] == row[i + j]);
            }
        }
    }
}

/// The digits from place `i` to place `e` are the digits that begin at
/// `i`, where no digit follows them.
pub proof fn lemma_digits_end_is(row: Seq<char>, i: int, e: int)
    requires
        0 <= i <= e <= row.len(),
        forall|j: int| i <= j < e ==> is_digit(#[trigger] row[j]),
        e == row.len() || !is_digit(row[e]),
    ensures
        digits_end(row, i) == e,
    decreases e - i,
{
    if i < e {
        assert(is_digit(row[i]));
        lemma_digits_end_is(row, i + 1, e);
    }
}

/// The numbers and the symbols of the schematic `input`.
pub fn read_schematic(input: &str) -> (found: (Vec<GridNumber>, Vec<Symbol>))
    requires
        readable(lines_of(input@)),
    ensures
        found.0@ == numbers_of(lines_of(input@), lines_of(input@).len() as int),
        found.1@ == symbols_of(lines_of(input@), lines_of(input@).len() as int),
{
    let chars = to_chars(input);
    let lines = split_lines(&chars);
    let ghost rows = lines_of(input@);
    let mut numbers: Vec<GridNumber> = Vec::new();
    let mut symbols: Vec<Symbol> = Vec::new();
    let mut r: usize = 0;
    while r < lines.len()
        invariant
            r <= lines@.len(),
            views(lines@) == rows,
            readable(rows),
            numbers@ == numbers_of(rows, r as int),
            symbols@ == symbols_of(rows, r as int),
        decreases lines@.len() - r,
    {
        let line = &lines[r];
        let ghost row = rows[r as int];
        let ghost numbers_before = numbers@;
        let ghost symbols_before = symbols@;
        proof {
            assert(views(lines@)[r as int] == line@);
            assert(rows[r as int].len() <= u32::MAX);
        }
        let n = line.len();
        let mut i: usize = 0;
        while i < n
            invariant
                i <= n,
                n == line@.len(),
                line@ == row,
                row == rows[r as int],
                r < rows.len(),
                rows.len() <= u32::MAX,
                n <= u32::MAX,
                readable(rows),
                numbers@ == numbers_before + row_numbers(row, r as int, i as int),
                symbols@ == symbols_before + row_symbols(row, r as int, i as int),
            decreases n - i,
        {
            let c = line[i];
            let ghost numbers_now = numbers@;
            let ghost symbols_now = symbols@;
            if digit(c) {
                if i == 0 || !digit(line[i - 1]) {
                    // A number begins here: read it to its end.
                    let mut value: u64 = 0;
                    let mut e: usize = i;
                    proof {
                        lemma_digits_end(row, i as int);
                        assert(begins_number(rows[r as int], i as int));
                        assert(row.subrange(i as int, i as int).len() == 0);
                    }
                    let ghost end = digits_end(row, i as int);
                    let ghost whole = row.subrange(i as int, end);
                    while e < n && digit(line[e])
                        invariant
                            i <= e <= n,
                            n == line@.len(),
                            line@ == row,
                            end == digits_end(row, i as int),
                            whole == row.subrange(i as int, end),
                            all_digits(whole),
                            decimal_value(whole) <= u32::MAX,
                            e <= end <= n,
                            end < n ==> !is_digit(row[end]),
                            forall|j: int| i <= j < e ==> is_digit(#[trigger] row[j]),
                            value == decimal_value(row.subrange(i as int, e as int)),
                        decreases n - e,
                    {
                        proof {
                            if e == end {
                                assert(!is_digit(row[end]));
                            }
                            let longer = row.subrange(i as int, e + 1);
                            assert(longer.drop_last() =~= row.subrange(i as int, e as int));
                            assert(longer.last() == row[e as int]);
                            assert(whole.take(e + 1 - i) =~= longer);
                            assert(whole.take(e - i) =~= row.subrange(i as int, e as int));
                            lemma_decimal_prefix(whole, e + 1 - i);
                            lemma_decimal_prefix(whole, e - i);
                        }
                        value = value * 10 + digit_to_u64(line[e]);
                        e += 1;
                    }
                    proof {
                        lemma_digits_end_is(row, i as int, e as int);
                    }
                    numbers.push(
                        GridNumber {
                            number: value as u32,
                            l: r as u32,
                            x: i as u32,
                            y: (e - 1) as u32,
                            marked: false,
                        },
                    );
                    proof {
                        assert(numbers@ =~= numbers_before + row_numbers(row, r as int, i + 1));
                    }
                }
            } else if c != '.' {
                symbols.push(Symbol { line: r as u32, column: i as u32, star: c == '*' });
                proof {
                    assert(symbols@ =~= symbols_before + row_symbols(row, r as int, i + 1));
                }
            }
            i += 1;
        }
        r += 1;
    }
    (numbers, symbols)
}

/// Whether the symbol touches the number.
pub fn is_touching(s: &Symbol, n: &GridNumber) -> (b: bool)
    ensures
        b == touches(*s, *n),
{
    let line = s.line as i64;
    let column = s.column as i64;
    n.l as i64 - 1 <= line && line <= n.l as i64 + 1 && n.x as i64 - 1 <= column && column
        <= n.y as i64 + 1
}

/// Marks every number that a symbol touches and returns the sum of the
/// marked numbers.
pub fn mark_parts(numbers: &mut Vec<GridNumber>, symbols: &Vec<Symbol>) -> (sum: u32)
    requires
        part_total(old(numbers)@, symbols@, old(numbers)@.len() as int) <= u32::MAX,
    ensures
        final(numbers)@.len() == old(numbers)@.len(),
        forall|i: int|
            0 <= i < old(numbers)@.len() ==> #[trigger] final(numbers)@[i] == (GridNumber {
                marked: old(numbers)@[i].marked || is_part(symbols@, old(numbers)@[i]),
                ..old(numbers)@[i]
            }),
        sum == part_total(old(numbers)@, symbols@, old(numbers)@.len() as int),
{
    let ghost before = numbers@;
    let mut sum: u32 = 0;
    let mut i: usize = 0;
    while i < numbers.len()
        invariant
            i <= numbers@.len(),
            numbers@.len() == before.len(),
            part_total(before, symbols@, before.len() as int) <= u32::MAX,
            sum == part_total(before, symbols@, i as int),
            forall|k: int| i <= k < before.len() ==> numbers@[k] == before[k],
            forall|k: int|
                0 <= k < i ==> #[trigger] numbers@[k] == (GridNumber {
                    marked: before[k].marked || is_part(symbols@, before[k]),
                    ..before[k]
                }),
        decreases numbers@.len() - i,
    {
        let n = numbers[i];
        let mut touched = false;
        let mut k: usize = 0;
        while k < symbols.len()
            invariant
                k <= symbols@.len(),
                touched == exists|j: int| 0 <= j < k && touches(#[trigger] symbols@[j], n),
            decreases symbols@.len() - k,
        {
            if is_touching(&symbols[k], &n) {
                touched = true;
            }
            k += 1;
        }
        proof {
            lemma_part_total_grows(before, symbols@, i + 1);
        }
        if touched {
            numbers.set(i, GridNumber { marked: true, ..n });
            sum += n.number;
        }
        i += 1;
    }
    sum
}

/// Sums of parts grow with the list of numbers.
pub proof fn lemma_part_total_grows(numbers: Seq<GridNumber>, symbols: Seq<Symbol>, k: int)
    requires
        0 <= k <= numbers.len(),
    ensures
        0 <= part_total(numbers, symbols, k) <= part_total(numbers, symbols, numbers.len() as int),
    decreases numbers.len() - k,
{
    if k < numbers.len() {
        lemma_part_total_grows(numbers, symbols, k + 1);
    }
    lemma_part_total_nonnegative(numbers, symbols, k);
}

/// Sums of parts are not negative.
pub proof fn lemma_part_total_nonnegative(numbers: Seq<GridNumber>, symbols: Seq<Symbol>, k: int)
    ensures
        0 <= part_total(numbers, symbols, k),
    decreases k,
{
    if k > 0 {
        lemma_part_total_nonnegative(numbers, symbols, k - 1);
    }
}

/// Whether the gear ratios can be computed and summed in 32-bit numbers.
pub open spec fn gears_fit(numbers: Seq<GridNumber>, symbols: Seq<Symbol>) -> bool {
    &&& forall|i: int, k: int|
        0 <= i < symbols.len() && 0 <= k <= numbers.len() ==> #[trigger] touch_product(
            numbers,
            symbols[i],
            k,
        ) <= u32::MAX
    &&& forall|i: int|
        0 <= i <= symbols.len() ==> #[trigger] gear_total(numbers, symbols, i) <= u32::MAX
}

/// The sum of the gear ratios of the symbols.
pub fn gear_ratio_sum(numbers: &Vec<GridNumber>, symbols: &Vec<Symbol>) -> (sum: u32)
    requires
        gears_fit(numbers@, symbols@),
    ensures
        sum == gear_total(numbers@, symbols@, symbols@.len() as int),
{
    let mut sum: u32 = 0;
    let mut i: usize = 0;
    while i < symbols.len()
        invariant
            i <= symbols@.len(),
            gears_fit(numbers@, symbols@),
            sum == gear_total(numbers@, symbols@, i as int),
        decreases symbols@.len() - i,
    {
        let s = symbols[i];
        let mut count: usize = 0;
        let mut ratio: u32 = 1;
        let mut k: usize = 0;
        while k < numbers.len()
            invariant
                k <= numbers@.len(),
                i < symbols@.len(),
                s == symbols@[i as int],
                gears_fit(numbers@, symbols@),
                count == touch_count(numbers@, s, k as int),
                count <= k,
                ratio == touch_product(numbers@, s, k as int),
            decreases numbers@.len() - k,
        {
            proof {
                assert(touch_product(numbers@, symbols@[i as int], k + 1) <= u32::MAX);
            }
            if is_touching(&s, &numbers[k]) {
                count += 1;
                ratio = ratio * numbers[k].number;
            }
            k += 1;
        }
        proof {
            assert(gear_total(numbers@, symbols@, i + 1) <= u32::MAX);
        }
        if s.star && count == 2 {
            sum = sum + ratio;
        }
        i += 1;
    }
    sum
}

} // verus!
