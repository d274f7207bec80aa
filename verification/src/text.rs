//! Scanning helpers shared by the puzzle parsers: characters of a string,
//! lines, fields and decimal numbers.
//!
//! Every helper has a specification over `Seq<char>`; the executable
//! versions work on `Vec<char>` so that each character is visited once.

use vstd::prelude::*;

verus! {

/// The views of a vector of character rows.
pub open spec fn views(rows: Seq<Vec<char>>) -> Seq<Seq<char>> {
    rows.map_values(|r: Vec<char>| r@)
}

/// The characters of `s`, in order.
pub fn to_chars(s: &str) -> (chars: Vec<char>)
    ensures
        chars@ == s@,
{
    let mut chars: Vec<char> = Vec::new();
    for c in it: s.chars()
        invariant
            chars@ == s@.take(it.index() as int),
            it.seq() == s@,
    {
        chars.push(c);
    }
    chars
}

/// The code point of `c`.
pub fn code(c: char) -> (v: u32)
    ensures
        v == c as int,
        v <= 0x10ffff,
{
    c as u32
}

/// A copy of `chars[from..to]`.
pub fn copy_range(chars: &Vec<char>, from: usize, to: usize) -> (part: Vec<char>)
    requires
        from <= to <= chars.len(),
    ensures
        part@ == chars@.subrange(from as int, to as int),
{
    let mut part: Vec<char> = Vec::new();
    let mut i: usize = from;
    while i < to
        invariant
            from <= i <= to <= chars.len(),
            part@ == chars@.subrange(from as int, i as int),
        decreases to - i,
    {
        part.push(chars[i]);
        i += 1;
    }
    part
}

// ---------------------------------------------------------------------
// Splitting at separators
// ---------------------------------------------------------------------

/// The test "is the character `sep`".
pub open spec fn is_char(sep: char) -> spec_fn(char) -> bool {
    |c: char| c == sep
}

/// The test "is white space".
pub open spec fn is_blank() -> spec_fn(char) -> bool {
    |c: char| is_space(c)
}

/// Length of the longest prefix of `s` that holds no character for which
/// `stop` is true.
pub open spec fn run_len(s: Seq<char>, stop: spec_fn(char) -> bool) -> int
    decreases s.len(),
{
    if s.len() == 0 || stop(s[0]) {
        0
    } else {
        1 + run_len(s.drop_first(), stop)
    }
}

/// `run_len` is the one position `k` such that nothing before `k` stops the
/// run and `k` is either the end or a stopping character.
pub proof fn lemma_run_len(s: Seq<char>, stop: spec_fn(char) -> bool, k: int)
    requires
        0 <= k <= s.len(),
        forall|j: int| 0 <= j < k ==> !stop(#[trigger] s[j]),
        k == s.len() || stop(s[k]),
    ensures
        run_len(s, stop) == k,
    decreases s.len(),
{
    if k > 0 {
        let t = s.drop_first();
        assert forall|j: int| 0 <= j < k - 1 implies !stop(#[trigger] t[j]) by {
            assert(t[j] == s[j + 1]);
        }
        lemma_run_len(t, stop, k - 1);
    }
}

/// What `lemma_run_len` asks of `k` holds of `run_len` itself.
pub proof fn lemma_run_len_bounds(s: Seq<char>, stop: spec_fn(char) -> bool)
    ensures
        0 <= run_len(s, stop) <= s.len(),
        forall|j: int| 0 <= j < run_len(s, stop) ==> !stop(#[trigger] s[j]),
        run_len(s, stop) == s.len() || stop(s[run_len(s, stop)]),
    decreases s.len(),
{
    if s.len() == 0 || stop(s[0]) {
    } else {
        let t = s.drop_first();
        lemma_run_len_bounds(t, stop);
        assert forall|j: int| 0 <= j < run_len(s, stop) implies !stop(#[trigger] s[j]) by {
            if j > 0 {
                assert(s[j] == t[j - 1]);
            }
        }
    }
}

/// The pieces of `s` between the characters equal to `sep`. There is always
/// at least one piece; pieces may be empty.
pub open spec fn split_at_char(s: Seq<char>, sep: char) -> Seq<Seq<char>>
    decreases s.len(),
{
    let k = run_len(s, is_char(sep));
    if 0 <= k < s.len() {
        seq![s.take(k)] + split_at_char(s.skip(k + 1), sep)
    } else {
        seq![s]
    }
}

/// Splits `chars` at every occurrence of `sep`.
pub fn split_char(chars: &Vec<char>, sep: char) -> (pieces: Vec<Vec<char>>)
    ensures
        views(pieces@) == split_at_char(chars@, sep),
        pieces.len() >= 1,
{
    let n = chars.len();
    let mut pieces: Vec<Vec<char>> = Vec::new();
    let mut start: usize = 0;
    let mut i: usize = 0;
    let ghost stop = is_char(sep);
    proof {
        assert(chars@.skip(0) =~= chars@);
        assert(views(pieces@) + split_at_char(chars@, sep) =~= split_at_char(chars@, sep));
    }
    while i < n
        invariant
            n == chars.len(),
            start <= i <= n,
            stop == is_char(sep),
            forall|j: int| start <= j < i ==> chars@[j] != sep,
            split_at_char(chars@, sep) == views(pieces@) + split_at_char(
                chars@.skip(start as int),
                sep,
            ),
        decreases n - i,
    {
        if chars[i] == sep {
            let piece = copy_range(chars, start, i);
            proof {
                let rest = chars@.skip(start as int);
                assert forall|j: int| 0 <= j < i - start implies !stop(#[trigger] rest[j]) by {
                    assert(rest[j] == chars@[start + j]);
                }
                assert(stop(rest[i - start]));
                lemma_run_len(rest, stop, i - start);
                assert(rest.take(i - start) =~= chars@.subrange(start as int, i as int));
                assert(rest.skip(i - start + 1) =~= chars@.skip(i + 1));
                assert(views(pieces@.push(piece)) =~= views(pieces@) + seq![piece@]);
            }
            pieces.push(piece);
            start = i + 1;
        }
        i += 1;
    }
    let piece = copy_range(chars, start, n);
    proof {
        let rest = chars@.skip(start as int);
        assert forall|j: int| 0 <= j < n - start implies !stop(#[trigger] rest[j]) by {
            assert(rest[j] == chars@[start + j]);
        }
        lemma_run_len(rest, stop, n - start);
        assert(rest =~= chars@.subrange(start as int, n as int));
        assert(views(pieces@.push(piece)) =~= views(pieces@) + seq![piece@]);
    }
    pieces.push(piece);
    pieces
}

// ---------------------------------------------------------------------
// Lines
// ---------------------------------------------------------------------

/// A line's content once its terminator is taken off: a carriage return
/// just before the line feed belongs to the terminator.
pub open spec fn strip_cr(line: Seq<char>) -> Seq<char> {
    if line.len() > 0 && line.last() == '\r' {
        line.drop_last()
    } else {
        line
    }
}

/// The lines of `s`. A line ends at a line feed, or at a carriage return
/// followed by a line feed; the last line needs no terminator, and an empty
/// remainder after the last terminator is no line.
pub open spec fn lines_of(s: Seq<char>) -> Seq<Seq<char>>
    decreases s.len(),
{
    let k = run_len(s, is_char('\n'));
    if s.len() == 0 {
        Seq::empty()
    } else if 0 <= k < s.len() {
        seq![strip_cr(s.take(k))] + lines_of(s.skip(k + 1))
    } else {
        seq![s]
    }
}

/// Splits `chars` into lines.
pub fn split_lines(chars: &Vec<char>) -> (lines: Vec<Vec<char>>)
    ensures
        views(lines@) == lines_of(chars@),
{
    let n = chars.len();
    let mut lines: Vec<Vec<char>> = Vec::new();
    let mut start: usize = 0;
    let mut i: usize = 0;
    let ghost stop = is_char('\n');
    proof {
        assert(chars@.skip(0) =~= chars@);
        assert(views(lines@) + lines_of(chars@) =~= lines_of(chars@));
    }
    while i < n
        invariant
            n == chars.len(),
            start <= i <= n,
            stop == is_char('\n'),
            forall|j: int| start <= j < i ==> chars@[j] != '\n',
            lines_of(chars@) == views(lines@) + lines_of(chars@.skip(start as int)),
        decreases n - i,
    {
        if chars[i] == '\n' {
            let end = if i > start && chars[i - 1] == '\r' {
                i - 1
            } else {
                i
            };
            let line = copy_range(chars, start, end);
            proof {
                let rest = chars@.skip(start as int);
                assert forall|j: int| 0 <= j < i - start implies !stop(#[trigger] rest[j]) by {
                    assert(rest[j] == chars@[start + j]);
                }
                assert(stop(rest[i - start]));
                lemma_run_len(rest, stop, i - start);
                let raw = rest.take(i - start);
                assert(raw =~= chars@.subrange(start as int, i as int));
                assert(strip_cr(raw) =~= line@);
                assert(rest.skip(i - start + 1) =~= chars@.skip(i + 1));
                assert(views(lines@.push(line)) =~= views(lines@) + seq![line@]);
            }
            lines.push(line);
            start = i + 1;
        }
        i += 1;
    }
    if start < n {
        let line = copy_range(chars, start, n);
        proof {
            let rest = chars@.skip(start as int);
            assert forall|j: int| 0 <= j < n - start implies !stop(#[trigger] rest[j]) by {
                assert(rest[j] == chars@[start + j]);
            }
            lemma_run_len(rest, stop, n - start);
            assert(rest =~= line@);
            assert(views(lines@.push(line)) =~= views(lines@) + seq![line@]);
        }
        lines.push(line);
    } else {
        proof {
            assert(chars@.skip(start as int).len() == 0);
            assert(views(lines@) + Seq::<Seq<char>>::empty() =~= views(lines@));
        }
    }
    lines
}

// ---------------------------------------------------------------------
// Fields between white space
// ---------------------------------------------------------------------

/// White space as the fields of a line understand it.
pub open spec fn is_space(c: char) -> bool {
    c == ' ' || c == '\t' || c == '\n' || c == '\r' || c == '\u{b}' || c == '\u{c}'
}

/// Whether `c` is white space.
pub fn space(c: char) -> (b: bool)
    ensures
        b == is_space(c),
{
    c == ' ' || c == '\t' || c == '\n' || c == '\r' || c == '\u{b}' || c == '\u{c}'
}

/// The maximal runs of characters of `s` that hold no white space, in
/// order. No field is empty.
pub open spec fn fields_of(s: Seq<char>) -> Seq<Seq<char>>
    decreases s.len(),
{
    let k = run_len(s, is_blank());
    if s.len() == 0 {
        Seq::empty()
    } else if is_space(s[0]) {
        fields_of(s.drop_first())
    } else if 0 < k <= s.len() {
        seq![s.take(k)] + fields_of(s.skip(k))
    } else {
        Seq::empty()
    }
}

/// Splits `chars` into its fields.
pub fn split_fields(chars: &Vec<char>) -> (fields: Vec<Vec<char>>)
    ensures
        views(fields@) == fields_of(chars@),
{
    let n = chars.len();
    let mut fields: Vec<Vec<char>> = Vec::new();
    let mut i: usize = 0;
    let ghost stop = is_blank();
    proof {
        assert(chars@.skip(0) =~= chars@);
        assert(views(fields@) + fields_of(chars@) =~= fields_of(chars@));
    }
    while i < n
        invariant
            n == chars.len(),
            i <= n,
            stop == is_blank(),
            fields_of(chars@) == views(fields@) + fields_of(chars@.skip(i as int)),
        decreases n - i,
    {
        if space(chars[i]) {
            proof {
                let rest = chars@.skip(i as int);
                assert(rest[0] == chars@[i as int]);
                assert(rest.drop_first() =~= chars@.skip(i + 1));
            }
            i += 1;
        } else {
            let start = i;
            while i < n && !space(chars[i])
                invariant
                    n == chars.len(),
                    start <= i <= n,
                    start < n,
                    !is_space(chars@[start as int]),
                    forall|j: int| start <= j < i ==> !is_space(chars@[j]),
                decreases n - i,
            {
                i += 1;
            }
            let field = copy_range(chars, start, i);
            proof {
                let rest = chars@.skip(start as int);
                assert(rest[0] == chars@[start as int]);
                assert forall|j: int| 0 <= j < i - start implies !stop(#[trigger] rest[j]) by {
                    assert(rest[j] == chars@[start + j]);
                }
                if i < n {
                    assert(rest[i - start] == chars@[i as int]);
                }
                lemma_run_len(rest, stop, i - start);
                assert(rest.take(i - start) =~= field@);
                assert(rest.skip(i - start) =~= chars@.skip(i as int));
                assert(views(fields@.push(field)) =~= views(fields@) + seq![field@]);
            }
            fields.push(field);
        }
    }
    proof {
        assert(chars@.skip(n as int).len() == 0);
        assert(views(fields@) + Seq::<Seq<char>>::empty() =~= views(fields@));
    }
    fields
}

// ---------------------------------------------------------------------
// Decimal numbers
// ---------------------------------------------------------------------

/// Whether `c` is one of the ten decimal digits.
pub open spec fn is_digit(c: char) -> bool {
    '0' <= c <= '9'
}

/// The number a decimal digit stands for.
pub open spec fn digit_value(c: char) -> int {
    c as int - '0' as int
}

/// Whether every character of `s` is a decimal digit.
pub open spec fn all_digits(s: Seq<char>) -> bool {
    forall|i: int| 0 <= i < s.len() ==> is_digit(#[trigger] s[i])
}

/// The number that the digits of `s` spell, most significant first.
pub open spec fn decimal_value(s: Seq<char>) -> int
    decreases s.len(),
{
    if s.len() == 0 {
        0
    } else {
        10 * decimal_value(s.drop_last()) + digit_value(s.last())
    }
}

/// A longer digit string spells no smaller a number than its prefix.
pub proof fn lemma_decimal_prefix(s: Seq<char>, k: int)
    requires
        all_digits(s),
        0 <= k <= s.len(),
    ensures
        0 <= decimal_value(s.take(k)) <= decimal_value(s),
    decreases s.len() - k,
{
    if k == s.len() {
        assert(s.take(k) =~= s);
        lemma_decimal_nonnegative(s);
    } else {
        lemma_decimal_prefix(s, k + 1);
        let t = s.take(k + 1);
        assert(t.drop_last() =~= s.take(k));
        assert(t.last() == s[k]);
        assert(all_digits(s.take(k))) by {
            assert forall|i: int| 0 <= i < s.take(k).len() implies is_digit(
                #[trigger] s.take(k)[i],
            ) by {
                assert(s.take(k)[i] == s[i]);
            }
        }
        lemma_decimal_nonnegative(s.take(k));
    }
}

/// A digit string spells a natural number.
pub proof fn lemma_decimal_nonnegative(s: Seq<char>)
    requires
        all_digits(s),
    ensures
        0 <= decimal_value(s),
    decreases s.len(),
{
    if s.len() > 0 {
        let t = s.drop_last();
        assert forall|i: int| 0 <= i < t.len() implies is_digit(#[trigger] t[i]) by {
            assert(t[i] == s[i]);
        }
        lemma_decimal_nonnegative(t);
        assert(is_digit(s[s.len() - 1]));
    }
}

/// Whether `c` is a decimal digit.
pub fn digit(c: char) -> (b: bool)
    ensures
        b == is_digit(c),
{
    '0' <= c && c <= '9'
}

/// The value of the decimal digit `c`.
pub fn digit_to_u64(c: char) -> (v: u64)
    requires
        is_digit(c),
    ensures
        v == digit_value(c),
        v <= 9,
{
    (c as u64) - ('0' as u64)
}

/// What an unsigned number of at most `max` reads as: digits only, at least
/// one, optionally after a plus sign.
pub open spec fn unsigned_of(s: Seq<char>, max: int) -> Option<int> {
    let digits = if s.len() > 0 && s[0] == '+' {
        s.drop_first()
    } else {
        s
    };
    if digits.len() > 0 && all_digits(digits) && decimal_value(digits) <= max {
        Some(decimal_value(digits))
    } else {
        None
    }
}

/// What a signed number between `min` and `max` reads as: digits only, at
/// least one, optionally after a plus or a minus sign.
pub open spec fn signed_of(s: Seq<char>, min: int, max: int) -> Option<int> {
    let negative = s.len() > 0 && s[0] == '-';
    let digits = if s.len() > 0 && (s[0] == '+' || s[0] == '-') {
        s.drop_first()
    } else {
        s
    };
    let value = if negative {
        -decimal_value(digits)
    } else {
        decimal_value(digits)
    };
    if digits.len() > 0 && all_digits(digits) && min <= value <= max {
        Some(value)
    } else {
        None
    }
}

/// Reads the digits `chars[from..]` as a number of at most `max`.
pub fn parse_digits(chars: &Vec<char>, from: usize, max: u64) -> (value: Option<u64>)
    requires
        from <= chars.len(),
    ensures
        ({
            let digits = chars@.skip(from as int);
            let readable = digits.len() > 0 && all_digits(digits) && decimal_value(digits) <= max;
            match value {
                Some(v) => readable && v == decimal_value(digits),
                None => !readable,
            }
        }),
{
    let n = chars.len();
    let ghost digits = chars@.skip(from as int);
    if from == n {
        return None;
    }
    let mut acc: u64 = 0;
    let mut i: usize = from;
    proof {
        assert(digits.take(0).len() == 0);
    }
    while i < n
        invariant
            from <= i <= n,
            n == chars.len(),
            digits == chars@.skip(from as int),
            all_digits(digits.take(i - from)),
            acc == decimal_value(digits.take(i - from)),
            acc <= max,
        decreases n - i,
    {
        let c = chars[i];
        let ghost longer = digits.take(i - from + 1);
        proof {
            assert(digits[i - from] == c);
            assert(longer.drop_last() =~= digits.take(i - from));
            assert(longer.last() == c);
        }
        if !digit(c) {
            return None;
        }
        let d = digit_to_u64(c);
        proof {
            assert forall|j: int| 0 <= j < longer.len() implies is_digit(#[trigger] longer[j]) by {
                if j < i - from {
                    assert(digits.take(i - from)[j] == digits[j]);
                }
            }
            assert(decimal_value(longer) == 10 * acc + d);
        }
        if d > max || acc > (max - d) / 10 {
            proof {
                assert(10 * acc + d > max);
                if all_digits(digits) {
                    lemma_decimal_prefix(digits, i - from + 1);
                }
            }
            return None;
        }
        acc = acc * 10 + d;
        i += 1;
    }
    proof {
        assert(digits.take(n - from) =~= digits);
    }
    Some(acc)
}

/// Reads `chars` as an unsigned number of at most `max`.
pub fn parse_unsigned(chars: &Vec<char>, max: u64) -> (value: Option<u64>)
    ensures
        match value {
            Some(v) => unsigned_of(chars@, max as int) == Some(v as int),
            None => unsigned_of(chars@, max as int) is None,
        },
{
    let from: usize = if chars.len() > 0 && chars[0] == '+' {
        1
    } else {
        0
    };
    proof {
        if from == 1 {
            assert(chars@.skip(1) =~= chars@.drop_first());
        } else {
            assert(chars@.skip(0) =~= chars@);
        }
    }
    parse_digits(chars, from, max)
}

/// Reads `chars` as an unsigned 32-bit number.
pub fn parse_u32(chars: &Vec<char>) -> (value: Option<u32>)
    ensures
        match value {
            Some(v) => unsigned_of(chars@, u32::MAX as int) == Some(v as int),
            None => unsigned_of(chars@, u32::MAX as int) is None,
        },
{
    match parse_unsigned(chars, 0xffff_ffffu64) {
        Some(v) => Some(v as u32),
        None => None,
    }
}

/// Reads `chars` as a signed 64-bit number.
pub fn parse_i64(chars: &Vec<char>) -> (value: Option<i64>)
    ensures
        match value {
            Some(v) => signed_of(chars@, i64::MIN as int, i64::MAX as int) == Some(v as int),
            None => signed_of(chars@, i64::MIN as int, i64::MAX as int) is None,
        },
{
    let negative = chars.len() > 0 && chars[0] == '-';
    let from: usize = if chars.len() > 0 && (chars[0] == '+' || chars[0] == '-') {
        1
    } else {
        0
    };
    proof {
        if from == 1 {
            assert(chars@.skip(1) =~= chars@.drop_first());
        } else {
            assert(chars@.skip(0) =~= chars@);
        }
    }
    if negative {
        match parse_digits(chars, from, 0x8000_0000_0000_0000u64) {
            Some(v) => {
                if v == 0x8000_0000_0000_0000u64 {
                    Some(i64::MIN)
                } else {
                    Some(-(v as i64))
                }
            },
            None => None,
        }
    } else {
        match parse_digits(chars, from, 0x7fff_ffff_ffff_ffffu64) {
            Some(v) => Some(v as i64),
            None => None,
        }
    }
}

/// Reads `chars` as a signed 32-bit number.
pub fn parse_i32(chars: &Vec<char>) -> (value: Option<i32>)
    ensures
        match value {
            Some(v) => signed_of(chars@, i32::MIN as int, i32::MAX as int) == Some(v as int),
            None => signed_of(chars@, i32::MIN as int, i32::MAX as int) is None,
        },
{
    let negative = chars.len() > 0 && chars[0] == '-';
    let from: usize = if chars.len() > 0 && (chars[0] == '+' || chars[0] == '-') {
        1
    } else {
        0
    };
    proof {
        if from == 1 {
            assert(chars@.skip(1) =~= chars@.drop_first());
        } else {
            assert(chars@.skip(0) =~= chars@);
        }
    }
    if negative {
        match parse_digits(chars, from, 0x8000_0000u64) {
            Some(v) => Some((-(v as i64)) as i32),
            None => None,
        }
    } else {
        match parse_digits(chars, from, 0x7fff_ffffu64) {
            Some(v) => Some(v as i32),
            None => None,
        }
    }
}

/// Whether `a` and `b` hold the same characters.
pub fn same_chars(a: &Vec<char>, b: &Vec<char>) -> (same: bool)
    ensures
        same == (a@ == b@),
{
    if a.len() != b.len() {
        return false;
    }
    let mut i: usize = 0;
    while i < a.len()
        invariant
            i <= a@.len(),
            a@.len() == b@.len(),
            forall|j: int| 0 <= j < i ==> a@[j] == b@[j],
        decreases a@.len() - i,
    {
        if a[i] != b[i] {
            return false;
        }
        i += 1;
    }
    proof {
        assert(a@ =~= b@);
    }
    true
}

/// Whether every one of `fields` reads as a number between `min` and
/// `max`.
pub open spec fn all_signed(fields: Seq<Seq<char>>, min: int, max: int) -> bool {
    forall|i: int| 0 <= i < fields.len() ==> signed_of(#[trigger] fields[i], min, max) is Some
}

/// The numbers that `fields` read as.
pub open spec fn signed_values(fields: Seq<Seq<char>>, min: int, max: int) -> Seq<int> {
    fields.map_values(|f: Seq<char>| signed_of(f, min, max).unwrap())
}

/// Reads every one of `fields` as a signed 64-bit number.
pub fn parse_all_i64(fields: &Vec<Vec<char>>) -> (values: Option<Vec<i64>>)
    ensures
        match values {
            Some(v) => {
                &&& all_signed(views(fields@), i64::MIN as int, i64::MAX as int)
                &&& v@.map_values(|x: i64| x as int) == signed_values(
                    views(fields@),
                    i64::MIN as int,
                    i64::MAX as int,
                )
            },
            None => !all_signed(views(fields@), i64::MIN as int, i64::MAX as int),
        },
{
    let mut values: Vec<i64> = Vec::new();
    let mut i: usize = 0;
    let ghost texts = views(fields@);
    while i < fields.len()
        invariant
            i <= fields@.len(),
            texts == views(fields@),
            values@.len() == i,
            forall|j: int|
                0 <= j < i ==> signed_of(#[trigger] texts[j], i64::MIN as int, i64::MAX as int)
                    == Some(values@[j] as int),
        decreases fields@.len() - i,
    {
        assert(texts[i as int] == fields@[i as int]@);
        match parse_i64(&fields[i]) {
            Some(v) => {
                values.push(v);
            },
            None => {
                return None;
            },
        }
        i += 1;
    }
    proof {
        assert(values@.map_values(|x: i64| x as int) =~= signed_values(
            texts,
            i64::MIN as int,
            i64::MAX as int,
        ));
    }
    Some(values)
}

/// Reads every one of `fields` as a signed 32-bit number.
pub fn parse_all_i32(fields: &Vec<Vec<char>>) -> (values: Option<Vec<i32>>)
    ensures
        match values {
            Some(v) => {
                &&& all_signed(views(fields@), i32::MIN as int, i32::MAX as int)
                &&& v@.map_values(|x: i32| x as int) == signed_values(
                    views(fields@),
                    i32::MIN as int,
                    i32::MAX as int,
                )
            },
            None => !all_signed(views(fields@), i32::MIN as int, i32::MAX as int),
        },
{
    let mut values: Vec<i32> = Vec::new();
    let mut i: usize = 0;
    let ghost texts = views(fields@);
    while i < fields.len()
        invariant
            i <= fields@.len(),
            texts == views(fields@),
            values@.len() == i,
            forall|j: int|
                0 <= j < i ==> signed_of(#[trigger] texts[j], i32::MIN as int, i32::MAX as int)
                    == Some(values@[j] as int),
        decreases fields@.len() - i,
    {
        assert(texts[i as int] == fields@[i as int]@);
        match parse_i32(&fields[i]) {
            Some(v) => {
                values.push(v);
            },
            None => {
                return None;
            },
        }
        i += 1;
    }
    proof {
        assert(values@.map_values(|x: i32| x as int) =~= signed_values(
            texts,
            i32::MIN as int,
            i32::MAX as int,
        ));
    }
    Some(values)
}

/// `sorted` with `x` put in after all numbers that are no larger.
pub open spec fn insert_number(sorted: Seq<i64>, x: i64) -> Seq<i64>
    decreases sorted.len(),
{
    if sorted.len() == 0 {
        seq![x]
    } else if sorted.last() <= x {
        sorted.push(x)
    } else {
        insert_number(sorted.drop_last(), x).push(sorted.last())
    }
}

/// `values` in rising order.
pub open spec fn sort_numbers(values: Seq<i64>) -> Seq<i64>
    decreases values.len(),
{
    if values.len() == 0 {
        Seq::empty()
    } else {
        insert_number(sort_numbers(values.drop_last()), values.last())
    }
}

/// Whether `values` is in rising order.
pub open spec fn is_rising(values: Seq<i64>) -> bool {
    forall|i: int, j: int| 0 <= i <= j < values.len() ==> values[i] <= values[j]
}

/// Putting a number into a rising list leaves it rising, one longer, and
/// made of the numbers it held and the new one.
pub proof fn lemma_insert_number(sorted: Seq<i64>, x: i64)
    requires
        is_rising(sorted),
    ensures
        is_rising(insert_number(sorted, x)),
        insert_number(sorted, x).len() == sorted.len() + 1,
        forall|v: i64|
            #![trigger insert_number(sorted, x).contains(v)]
            #![trigger sorted.contains(v)]
            insert_number(sorted, x).contains(v) <==> (sorted.contains(v) || v == x),
    decreases sorted.len(),
{
    let out = insert_number(sorted, x);
    if sorted.len() == 0 {
        assert(out[0] == x);
    } else if sorted.last() <= x {
        assert forall|v: i64| out.contains(v) <==> (sorted.contains(v) || v == x) by {
            if sorted.contains(v) {
                let i = choose|i: int| 0 <= i < sorted.len() && sorted[i] == v;
                assert(out[i] == v);
            }
            if v == x {
                assert(out[sorted.len() as int] == v);
            }
            if out.contains(v) {
                let i = choose|i: int| 0 <= i < out.len() && out[i] == v;
                if i < sorted.len() {
                    assert(sorted[i] == v);
                }
            }
        }
    } else {
        let head = sorted.drop_last();
        assert forall|i: int, j: int| 0 <= i <= j < head.len() implies head[i] <= head[j] by {
            assert(sorted[i] <= sorted[j]);
        }
        lemma_insert_number(head, x);
        let inner = insert_number(head, x);
        assert forall|i: int, j: int| 0 <= i <= j < out.len() implies out[i] <= out[j] by {
            if j == out.len() - 1 && i < j {
                assert(inner.contains(inner[i]));
                if head.contains(inner[i]) {
                    let k = choose|k: int| 0 <= k < head.len() && head[k] == inner[i];
                    assert(sorted[k] <= sorted[sorted.len() - 1]);
                }
            }
        }
        assert forall|v: i64| out.contains(v) <==> (sorted.contains(v) || v == x) by {
            if out.contains(v) {
                let i = choose|i: int| 0 <= i < out.len() && out[i] == v;
                if i < inner.len() {
                    assert(inner.contains(v));
                    if head.contains(v) {
                        let k = choose|k: int| 0 <= k < head.len() && head[k] == v;
                        assert(sorted[k] == v);
                    }
                } else {
                    assert(sorted[sorted.len() - 1] == v);
                }
            }
            if sorted.contains(v) {
                let k = choose|k: int| 0 <= k < sorted.len() && sorted[k] == v;
                if k < head.len() {
                    assert(head[k] == v);
                    assert(head.contains(v));
                    assert(inner.contains(v));
                    let i = choose|i: int| 0 <= i < inner.len() && inner[i] == v;
                    assert(out[i] == v);
                } else {
                    assert(out[out.len() - 1] == v);
                }
            }
            if v == x {
                assert(inner.contains(v));
                let i = choose|i: int| 0 <= i < inner.len() && inner[i] == v;
                assert(out[i] == v);
            }
        }
    }
}

/// Sorted numbers are in rising order, as many as before, and the same.
pub proof fn lemma_sort_numbers(values: Seq<i64>)
    ensures
        is_rising(sort_numbers(values)),
        sort_numbers(values).len() == values.len(),
        forall|v: i64|
            #![trigger sort_numbers(values).contains(v)]
            #![trigger values.contains(v)]
            sort_numbers(values).contains(v) <==> values.contains(v),
    decreases values.len(),
{
    if values.len() > 0 {
        let head = values.drop_last();
        lemma_sort_numbers(head);
        lemma_insert_number(sort_numbers(head), values.last());
        assert forall|v: i64| sort_numbers(values).contains(v) <==> values.contains(v) by {
            if values.contains(v) {
                let i = choose|i: int| 0 <= i < values.len() && values[i] == v;
                if i < head.len() {
                    assert(head[i] == v);
                    assert(head.contains(v));
                }
            }
            if head.contains(v) {
                let i = choose|i: int| 0 <= i < head.len() && head[i] == v;
                assert(values[i] == v);
            }
            assert(values[values.len() - 1] == values.last());
        }
    }
}

/// `values` in rising order.
pub fn sorted_numbers(values: &Vec<i64>) -> (sorted: Vec<i64>)
    ensures
        sorted@ == sort_numbers(values@),
        is_rising(sorted@),
        sorted@.len() == values@.len(),
{
    let mut sorted: Vec<i64> = Vec::new();
    let mut i: usize = 0;
    while i < values.len()
        invariant
            i <= values@.len(),
            sorted@ == sort_numbers(values@.take(i as int)),
        decreases values@.len() - i,
    {
        let x = values[i];
        let ghost before = sorted@;
        proof {
            assert(values@.take(i + 1).drop_last() =~= values@.take(i as int));
        }
        sorted.push(x);
        let mut k: usize = sorted.len() - 1;
        proof {
            assert(before.take(k as int) =~= before);
            assert(sorted@.take(k as int) =~= before);
            assert(insert_number(before, x) + sorted@.skip(k + 1) =~= insert_number(before, x));
        }
        while k > 0 && sorted[k - 1] > x
            invariant
                k < sorted@.len(),
                sorted@.len() == before.len() + 1,
                sorted@.take(k as int) == before.take(k as int),
                sorted@[k as int] == x,
                insert_number(before, x) == insert_number(before.take(k as int), x) + sorted@.skip(
                    k + 1,
                ),
            decreases k,
        {
            let moved = sorted[k - 1];
            proof {
                let head = before.take(k as int);
                assert(head.last() == moved);
                assert(head.drop_last() =~= before.take(k - 1));
            }
            let ghost was = sorted@;
            sorted.set(k, moved);
            sorted.set(k - 1, x);
            proof {
                assert(sorted@.take(k - 1) =~= before.take(k - 1));
                assert(sorted@.skip(k as int) =~= seq![moved] + was.skip(k + 1));
                assert(insert_number(before.take(k as int), x) == insert_number(
                    before.take(k - 1),
                    x,
                ).push(moved));
                assert(insert_number(before.take(k - 1), x).push(moved) + was.skip(k + 1)
                    =~= insert_number(before.take(k - 1), x) + sorted@.skip(k as int));
            }
            k -= 1;
        }
        proof {
            let head = before.take(k as int);
            if k > 0 {
                assert(head.last() == sorted@[k - 1]);
            }
            assert(insert_number(head, x) == head.push(x));
            assert(head.push(x) + sorted@.skip(k + 1) =~= sorted@);
        }
        i += 1;
    }
    proof {
        assert(values@.take(i as int) =~= values@);
        lemma_sort_numbers(values@);
    }
    sorted
}

} // verus!
